//! Creating shapes: their measures, their names, and why they are refused.
use crate::arrange::{given_or_default, or_default};
use crate::bezier::{PathEl, Point, ONE};
use crate::copies::{number_name, numbered, FULL_TURN};
use crate::double::{Double, INFINITE, SIGN};
use crate::figures::{find_layer, layer_or_active, SHORT_P9};
use crate::float::{
    absolute, at_most, divided, exact, f_abs, f_add, f_at_most, f_div, f_less, f_max, f_min, f_mul,
    f_narrow, f_over, f_round, f_sub, from_count, half, halved, lemma_positive, less, maximum,
    minimum, minus, narrowed, over, plus, round_number, times, whole,
};
use crate::outlines::{line_through, polar, polygon, polygon_through, polyline, Direction, P4};
use crate::scene::{
    around_id, count_text, counted, id_text, parse_uuid, parsed_uuid, push_id, Color, ColorArg,
};
use crate::steps::{
    is_plain, lemma_add, lemma_half, lemma_order, lemma_plain, lemma_same_value, lemma_steps,
    lemma_zero_value, steps,
};
use crate::text::{
    chars_of, decimal_text, joined, number_text, push_all, push_str, same_text, text_of, texts,
};
use crate::typography::{quoted_name, quoted_text};
use vstd::prelude::*;

verus! {

#[derive(Debug, Clone, Copy, PartialEq, Eq, Structural)]
pub enum ShapeType {
    Rectangle,
    RoundedRect,
    Ellipse,
    Polygon,
    Star,
    Line,
    Arc,
}

#[derive(Debug, Clone, Copy, PartialEq, Eq, Structural)]
pub struct ShapeArgs {
    pub shape_type: ShapeType,
    pub x: Double,
    pub y: Double,
    pub width: Double,
    pub height: Double,
    pub corner_radius: Option<Double>,
    pub sides: Option<usize>,
    pub inner_radius: Option<Double>,
    pub arc_start_angle: Option<Double>,
    pub arc_end_angle: Option<Double>,
    pub arc_open: Option<bool>,
}

/// A basic shape by its measures.
#[derive(Debug, Clone, Copy, PartialEq, Eq, Structural)]
pub enum BasicShape {
    Rect { x: Double, y: Double, width: Double, height: Double },
    RoundedRect { x: Double, y: Double, width: Double, height: Double, radius: Double },
    Ellipse { cx: Double, cy: Double, rx: Double, ry: Double },
    Polygon { cx: Double, cy: Double, radius: Double, sides: usize },
    Star { cx: Double, cy: Double, outer: Double, inner: Double, points: usize },
    Line { x0: Double, y0: Double, x1: Double, y1: Double },
    Arc { cx: Double, cy: Double, rx: Double, ry: Double, start: Double, end: Double, closed: bool },
}

/// The shape that fills a box.
pub open spec fn basic_shape(a: ShapeArgs) -> BasicShape {
    let cx = f_add(a.x, half(a.width));
    let cy = f_add(a.y, half(a.height));
    let r = half(f_min(a.width, a.height));
    match a.shape_type {
        ShapeType::Rectangle => BasicShape::Rect {
            x: a.x,
            y: a.y,
            width: a.width,
            height: a.height,
        },
        ShapeType::RoundedRect => BasicShape::RoundedRect {
            x: a.x,
            y: a.y,
            width: a.width,
            height: a.height,
            radius: or_default(a.corner_radius, whole(10)),
        },
        ShapeType::Ellipse => BasicShape::Ellipse {
            cx,
            cy,
            rx: half(a.width),
            ry: half(a.height),
        },
        ShapeType::Polygon => BasicShape::Polygon {
            cx,
            cy,
            radius: r,
            sides: match a.sides {
                Some(n) => n,
                None => 6,
            },
        },
        ShapeType::Star => BasicShape::Star {
            cx,
            cy,
            outer: r,
            inner: f_mul(r, or_default(a.inner_radius, Double { bits: P4 })),
            points: match a.sides {
                Some(n) => n,
                None => 5,
            },
        },
        ShapeType::Line => BasicShape::Line {
            x0: a.x,
            y0: a.y,
            x1: f_add(a.x, a.width),
            y1: f_add(a.y, a.height),
        },
        ShapeType::Arc => BasicShape::Arc {
            cx,
            cy,
            rx: half(f_abs(a.width)),
            ry: half(f_abs(a.height)),
            start: or_default(a.arc_start_angle, Double { bits: 0 }),
            end: or_default(a.arc_end_angle, whole(270)),
            closed: a.arc_open != Some(true),
        },
    }
}

/// The shape that fills a box.
pub fn create_shape(a: &ShapeArgs) -> (r: BasicShape)
    ensures
        r == basic_shape(*a),
{
    let cx = plus(a.x, halved(a.width));
    let cy = plus(a.y, halved(a.height));
    let r = halved(minimum(a.width, a.height));
    match a.shape_type {
        ShapeType::Rectangle => BasicShape::Rect {
            x: a.x,
            y: a.y,
            width: a.width,
            height: a.height,
        },
        ShapeType::RoundedRect => BasicShape::RoundedRect {
            x: a.x,
            y: a.y,
            width: a.width,
            height: a.height,
            radius: given_or_default(a.corner_radius, from_count(10)),
        },
        ShapeType::Ellipse => BasicShape::Ellipse {
            cx,
            cy,
            rx: halved(a.width),
            ry: halved(a.height),
        },
        ShapeType::Polygon => BasicShape::Polygon {
            cx,
            cy,
            radius: r,
            sides: match a.sides {
                Some(n) => n,
                None => 6,
            },
        },
        ShapeType::Star => BasicShape::Star {
            cx,
            cy,
            outer: r,
            inner: times(r, given_or_default(a.inner_radius, Double { bits: P4 })),
            points: match a.sides {
                Some(n) => n,
                None => 5,
            },
        },
        ShapeType::Line => BasicShape::Line {
            x0: a.x,
            y0: a.y,
            x1: plus(a.x, a.width),
            y1: plus(a.y, a.height),
        },
        ShapeType::Arc => BasicShape::Arc {
            cx,
            cy,
            rx: halved(absolute(a.width)),
            ry: halved(absolute(a.height)),
            start: given_or_default(a.arc_start_angle, Double { bits: 0 }),
            end: given_or_default(a.arc_end_angle, from_count(270)),
            closed: match a.arc_open {
                Some(open) => !open,
                None => true,
            },
        },
    }
}

/// The name of a kind of shape.
pub open spec fn kind_label(t: ShapeType) -> Seq<char> {
    match t {
        ShapeType::Rectangle => "Rectangle"@,
        ShapeType::RoundedRect => "RoundedRect"@,
        ShapeType::Ellipse => "Ellipse"@,
        ShapeType::Polygon => "Polygon"@,
        ShapeType::Star => "Star"@,
        ShapeType::Line => "Line"@,
        ShapeType::Arc => "Arc"@,
    }
}

/// The name of a kind of shape in small letters.
pub open spec fn small_label(t: ShapeType) -> Seq<char> {
    match t {
        ShapeType::Rectangle => "rectangle"@,
        ShapeType::RoundedRect => "roundedrect"@,
        ShapeType::Ellipse => "ellipse"@,
        ShapeType::Polygon => "polygon"@,
        ShapeType::Star => "star"@,
        ShapeType::Line => "line"@,
        ShapeType::Arc => "arc"@,
    }
}

/// The name that is given, or else the default.
pub open spec fn name_or(name: Option<Seq<char>>, default: Seq<char>) -> Seq<char> {
    match name {
        Some(n) => n,
        None => default,
    }
}

pub open spec fn str_view(name: Option<&str>) -> Option<Seq<char>> {
    match name {
        Some(n) => Some(n@),
        None => None,
    }
}

/// The name that is given, or else the default.
pub fn choose_name(name: Option<&str>, default: &str) -> (r: String)
    ensures
        r@ == name_or(str_view(name), default@),
{
    match name {
        Some(n) => n.to_owned(),
        None => default.to_owned(),
    }
}

/// The name of a shape and what is said about it.
#[derive(Debug)]
pub struct Named {
    pub name: String,
    pub message: String,
}

/// The name of a basic shape, by default that of its kind, and what is said.
pub fn name_shape(t: ShapeType, name: Option<&str>, id: u128) -> (r: Named)
    ensures
        r.name@ == name_or(str_view(name), kind_label(t)),
        r.message@ == "Created "@ + small_label(t) + " '"@ + r.name@ + "' (id: "@ + id_text(id)
            + ")"@,
{
    let big = match t {
        ShapeType::Rectangle => "Rectangle",
        ShapeType::RoundedRect => "RoundedRect",
        ShapeType::Ellipse => "Ellipse",
        ShapeType::Polygon => "Polygon",
        ShapeType::Star => "Star",
        ShapeType::Line => "Line",
        ShapeType::Arc => "Arc",
    };
    let small = match t {
        ShapeType::Rectangle => "rectangle",
        ShapeType::RoundedRect => "roundedrect",
        ShapeType::Ellipse => "ellipse",
        ShapeType::Polygon => "polygon",
        ShapeType::Star => "star",
        ShapeType::Line => "line",
        ShapeType::Arc => "arc",
    };
    let name = choose_name(name, big);
    let mut v = chars_of("Created ");
    push_str(&mut v, small);
    push_str(&mut v, " '");
    push_str(&mut v, name.as_str());
    push_str(&mut v, "' (id: ");
    push_id(&mut v, id);
    push_str(&mut v, ")");
    Named { name, message: text_of(&v) }
}

/// The solid fill of a shape: the colour, unless a fill is given. A colour that
/// cannot be read is refused.
pub fn shape_color(has_fill: bool, color: &Option<ColorArg>) -> (r: Result<Option<Color>, String>)
    ensures
        match *color {
            Some(c) => if has_fill {
                r == Ok::<Option<Color>, String>(None)
            } else {
                match c.color {
                    Some(v) => r == Ok::<Option<Color>, String>(Some(v)),
                    None => r matches Err(e) && e@ == quoted_name(
                        "Invalid color"@,
                        c.text@,
                        " (expected #rrggbb)"@,
                    ),
                }
            },
            None => r == Ok::<Option<Color>, String>(None),
        },
{
    if has_fill {
        return Ok(None);
    }
    match color {
        None => Ok(None),
        Some(c) => match c.color {
            Some(v) => Ok(Some(v)),
            None => Err(quoted_text("Invalid color", c.text.as_str(), " (expected #rrggbb)")),
        },
    }
}

/// What reading path data comes to.
#[derive(Debug)]
pub enum ReadPath {
    Drawable,
    /// There is nothing to draw.
    Empty,
    /// The data cannot be read, for the given reason.
    Invalid(String),
}

/// Why a path is not created.
pub open spec fn create_path_error(read: ReadPath) -> Option<Seq<char>> {
    match read {
        ReadPath::Drawable => None,
        ReadPath::Empty => Some("Invalid SVG path data: path contains no drawable segments"@),
        ReadPath::Invalid(why) => Some("Invalid SVG path data: "@ + why@),
    }
}

/// The name of a path and what is said about it.
pub fn create_path(read: &ReadPath, name: Option<&str>, id: u128) -> (r: Result<Named, String>)
    ensures
        match r {
            Err(e) => create_path_error(*read) == Some(e@),
            Ok(n) => {
                &&& create_path_error(*read) is None
                &&& n.name@ == name_or(str_view(name), "Path"@)
                &&& n.message@ == quoted_name(
                    "Created path"@,
                    n.name@,
                    " (id: "@ + id_text(id) + ")"@,
                )
            },
        },
{
    match read {
        ReadPath::Invalid(why) => Err(joined("Invalid SVG path data: ", why.as_str())),
        ReadPath::Empty => Err(
            "Invalid SVG path data: path contains no drawable segments".to_owned(),
        ),
        ReadPath::Drawable => {
            let name = choose_name(name, "Path");
            let tail = around_id(" (id: ", id, ")");
            let message = quoted_text("Created path", name.as_str(), tail.as_str());
            Ok(Named { name, message })
        },
    }
}

/// The node of a smooth curve.
#[derive(Debug)]
pub struct SmoothCurve {
    pub name: String,
    pub layer: Option<u128>,
    pub message: String,
}

/// A smooth curve through points; at least 2 are needed. It goes to the layer whose id
/// can be read, if there is one.
pub fn create_curvature_path(points: usize, layer_id: &Option<String>, id: u128) -> (r: Result<
    SmoothCurve,
    String,
>)
    ensures
        match r {
            Err(e) => points < 2 && e@ == "At least 2 points are required"@,
            Ok(c) => {
                &&& points >= 2
                &&& c.name@ == "Curvature Path"@
                &&& c.layer == (match *layer_id {
                    Some(t) => parsed_uuid(t@),
                    None => None,
                })
                &&& c.message@ == counted(
                    "Created smooth curve through "@,
                    points as nat,
                    " points (id: "@ + id_text(id) + ")"@,
                )
            },
        },
{
    if points < 2 {
        return Err("At least 2 points are required".to_owned());
    }
    let layer = match layer_id {
        Some(t) => parse_uuid(t.as_str()),
        None => None,
    };
    let tail = around_id(" points (id: ", id, ")");
    Ok(
        SmoothCurve {
            name: "Curvature Path".to_owned(),
            layer,
            message: count_text("Created smooth curve through ", points, tail.as_str()),
        },
    )
}

/// 0.15 as a number.
pub const P15: u64 = 0x3fc3_3333_3333_3333;

/// 0.15 of the binary32 format as a number.
pub const SHORT_P15: u64 = 0x3fc3_3333_4000_0000;

/// 0.3 of the binary32 format as a number.
pub const SHORT_P3: u64 = 0x3fd3_3333_4000_0000;

/// 0.6 of the binary32 format as a number.
pub const SHORT_P6: u64 = 0x3fe3_3333_4000_0000;

/// 0.98 of the binary32 format as a number.
pub const SHORT_P98: u64 = 0x3fef_5c29_0000_0000;

/// 0.8 as a number.
pub const P8: u64 = 0x3fe9_9999_9999_999a;

/// 1.5 as a number.
pub const ONE_AND_A_HALF: u64 = 0x3ff8_0000_0000_0000;

#[derive(Debug, Clone, Copy, PartialEq, Eq, Structural)]
pub struct FlareArgs {
    pub cx: Double,
    pub cy: Double,
    pub halo_radius: Option<Double>,
    pub ray_count: Option<usize>,
    pub ray_length: Option<Double>,
    pub ring_count: Option<usize>,
    /// A number of the binary32 format.
    pub ray_opacity: Option<Double>,
    /// What the colour, `#fffbe6` where none is given, is read as.
    pub halo_color: Option<Color>,
}

/// A ring of a lens flare: its radius, and the colour and the width of its stroke.
#[derive(Debug, Clone, Copy, PartialEq, Eq, Structural)]
pub struct FlareRing {
    pub radius: Double,
    pub color: Color,
    pub width: Double,
}

/// A lens flare: the radius of its halo, the number of its rays, the colours of both,
/// the opacity of the rays, and its rings; the names of its parts, from the halo to the
/// last ring, and the group that holds them in this order.
#[derive(Debug)]
pub struct Flare {
    pub halo: Double,
    pub halo_color: Color,
    pub rays: usize,
    pub ray_color: Color,
    pub ray_opacity: Double,
    pub rings: Vec<FlareRing>,
    pub names: Vec<String>,
    pub layer: u128,
    pub group: String,
    /// Where the group stands in its layer.
    pub group_index: usize,
    /// How many entries this adds to the history.
    pub entries: usize,
}

/// The names of the halo, the rays and the rings of a flare.
pub open spec fn flare_names(rays: nat, rings: nat) -> Seq<Seq<char>> {
    Seq::new(
        1 + rays + rings,
        |i: int|
            if i == 0 {
                "Flare Halo"@
            } else if i <= rays {
                numbered("Flare"@, " Ray "@, i as nat)
            } else {
                numbered("Flare"@, " Ring "@, (i - rays) as nat)
            },
    )
}

fn name_flare(rays: usize, rings: usize) -> (r: Vec<String>)
    requires
        1 + rays + rings <= usize::MAX,
    ensures
        texts(r@) == flare_names(rays as nat, rings as nat),
{
    let ghost goal = flare_names(rays as nat, rings as nat);
    let mut out: Vec<String> = Vec::new();
    let mut i: usize = 0;
    assert(texts(out@) =~= goal.take(0));
    while i < 1 + rays + rings
        invariant
            i <= 1 + rays + rings <= usize::MAX,
            goal == flare_names(rays as nat, rings as nat),
            texts(out@) == goal.take(i as int),
        decreases 1 + rays + rings - i,
    {
        let ghost before = out@;
        out.push(
            if i == 0 {
                "Flare Halo".to_owned()
            } else if i <= rays {
                number_name("Flare", " Ray ", i)
            } else {
                number_name("Flare", " Ring ", i - rays)
            },
        );
        i += 1;
        assert(texts(out@) =~= texts(before).push(goal[i - 1]));
        assert(goal.take(i as int) =~= goal.take(i - 1).push(goal[i - 1]));
    }
    assert(texts(out@) =~= goal);
    out
}

/// The colour of a flare, with the given opacity: nearly white where it could not be
/// read.
pub open spec fn flare_color(a: FlareArgs, opacity: Double) -> Color {
    match a.halo_color {
        Some(c) => Color { a: opacity, ..c },
        None => Color {
            r: Double { bits: ONE },
            g: Double { bits: SHORT_P98 },
            b: Double { bits: SHORT_P9 },
            a: opacity,
        },
    }
}

fn tinted(a: &FlareArgs, opacity: Double) -> (r: Color)
    ensures
        r == flare_color(*a, opacity),
{
    match a.halo_color {
        Some(c) => Color { r: c.r, g: c.g, b: c.b, a: opacity },
        None => Color {
            r: Double { bits: ONE },
            g: Double { bits: SHORT_P98 },
            b: Double { bits: SHORT_P9 },
            a: opacity,
        },
    }
}

pub open spec fn ray_count_of(a: FlareArgs) -> nat {
    match a.ray_count {
        Some(n) => if n >= 2 {
            n as nat
        } else {
            2
        },
        None => 12,
    }
}

pub open spec fn ring_count_of(a: FlareArgs) -> nat {
    match a.ring_count {
        Some(n) => n as nat,
        None => 3,
    }
}

/// Why a flare is not made. The halo and the group count as nodes.
pub open spec fn flare_error(a: FlareArgs, limit: usize) -> Option<Seq<char>> {
    let nodes = 2 + ray_count_of(a) + ring_count_of(a);
    if nodes > usize::MAX {
        Some("Lens flare generated-node count overflow"@)
    } else if nodes > limit {
        Some(
            "create_flare may generate at most "@ + decimal_text(limit as nat)
                + " nodes, including the halo and group"@,
        )
    } else {
        None
    }
}

pub open spec fn halo_of(a: FlareArgs) -> Double {
    or_default(a.halo_radius, whole(50))
}

pub open spec fn flare_ring(a: FlareArgs, i: nat) -> FlareRing {
    FlareRing {
        radius: f_mul(
            halo_of(a),
            f_add(Double { bits: ONE_AND_A_HALF }, f_mul(whole(i), Double { bits: P8 })),
        ),
        color: flare_color(
            a,
            f_narrow(
                f_over(
                    Double { bits: SHORT_P15 },
                    f_narrow(f_add(f_narrow(whole(i)), Double { bits: ONE })),
                ),
            ),
        ),
        width: Double { bits: ONE_AND_A_HALF },
    }
}

/// A lens flare: its halo, how many rays it has, its rings, and their colours and names,
/// in a group on the layer with the given id or on the active one. `limit` is the number
/// of nodes that may be made.
pub fn create_flare(
    a: &FlareArgs,
    limit: usize,
    layer_id: &Option<String>,
    active_layer: Option<u128>,
) -> (r: Result<Flare, String>)
    ensures
        match r {
            Err(e) => flare_error(*a, limit) == Some(e@),
            Ok(f) => {
                &&& flare_error(*a, limit) is None
                &&& f.halo == halo_of(*a)
                &&& f.halo_color == flare_color(*a, Double { bits: SHORT_P6 })
                &&& f.rays == ray_count_of(*a)
                &&& f.ray_opacity == or_default(a.ray_opacity, Double { bits: SHORT_P3 })
                &&& f.ray_color == flare_color(*a, f.ray_opacity)
                &&& f.rings@ == Seq::new(
                    ring_count_of(*a),
                    |i: int| flare_ring(*a, i as nat),
                )
                &&& texts(f.names@) == flare_names(ray_count_of(*a), ring_count_of(*a))
                &&& f.layer == layer_or_active(*layer_id, active_layer)
                &&& f.group@ == "Lens Flare"@
                &&& f.group_index == 0
                &&& f.entries == 2 + ray_count_of(*a) + ring_count_of(*a)
            },
        },
{
    let rays: usize = match a.ray_count {
        Some(n) => if n >= 2 {
            n
        } else {
            2
        },
        None => 12,
    };
    let rings: usize = match a.ring_count {
        Some(n) => n,
        None => 3,
    };
    let overflow = "Lens flare generated-node count overflow";
    let total: usize = match rays.checked_add(2) {
        None => {
            return Err(overflow.to_owned());
        },
        Some(n) => match n.checked_add(rings) {
            None => {
                return Err(overflow.to_owned());
            },
            Some(n) => n,
        },
    };
    if total > limit {
        return Err(
            count_text(
                "create_flare may generate at most ",
                limit,
                " nodes, including the halo and group",
            ),
        );
    }
    let halo = given_or_default(a.halo_radius, from_count(50));
    let ghost goal = Seq::new(ring_count_of(*a), |i: int| flare_ring(*a, i as nat));
    let mut out: Vec<FlareRing> = Vec::new();
    let mut i: usize = 0;
    while i < rings
        invariant
            i <= rings,
            rings == ring_count_of(*a),
            halo == halo_of(*a),
            goal == Seq::new(ring_count_of(*a), |i: int| flare_ring(*a, i as nat)),
            out@ == goal.take(i as int),
        decreases rings - i,
    {
        let radius = times(
            halo,
            plus(
                Double { bits: ONE_AND_A_HALF },
                times(from_count(i as u64), Double { bits: P8 }),
            ),
        );
        let below = narrowed(plus(narrowed(from_count(i as u64)), Double { bits: ONE }));
        let opacity = narrowed(over(Double { bits: SHORT_P15 }, below));
        out.push(
            FlareRing {
                radius,
                color: tinted(a, opacity),
                width: Double { bits: ONE_AND_A_HALF },
            },
        );
        i += 1;
        assert(out@ =~= goal.take(i as int));
    }
    assert(out@ =~= goal);
    let ray_opacity = given_or_default(a.ray_opacity, Double { bits: SHORT_P3 });
    Ok(
        Flare {
            halo,
            halo_color: tinted(a, Double { bits: SHORT_P6 }),
            rays,
            ray_color: tinted(a, ray_opacity),
            ray_opacity,
            rings: out,
            names: name_flare(rays, rings),
            layer: find_layer(layer_id, active_layer),
            group: "Lens Flare".to_owned(),
            group_index: 0,
            entries: total,
        },
    )
}

/// The angles of a ray: its middle and its two sides, in radians.
pub open spec fn ray_angles_of(rays: nat, i: nat) -> (Double, Double, Double) {
    let turn = (Double { bits: FULL_TURN });
    let a = f_div(f_mul(turn, whole(i)), whole(rays));
    let w = f_mul(f_div(turn, whole(rays)), Double { bits: P15 });
    (a, f_sub(a, w), f_add(a, w))
}

/// The angles of a ray.
pub fn ray_angles(rays: usize, i: usize) -> (r: (Double, Double, Double))
    requires
        rays > 0,
    ensures
        r == ray_angles_of(rays as nat, i as nat),
{
    proof {
        lemma_positive(rays as nat);
    }
    let turn = Double { bits: FULL_TURN };
    let n = from_count(rays as u64);
    let a = divided(times(turn, from_count(i as u64)), n);
    let w = times(divided(turn, n), Double { bits: P15 });
    (a, minus(a, w), plus(a, w))
}

/// The corners of a ray: its foot lies inside the halo, its tip outside.
pub open spec fn ray_corners(
    a: FlareArgs,
    middle: Direction,
    left: Direction,
    right: Direction,
) -> Seq<Point> {
    let r = halo_of(a);
    let foot = f_mul(r, Double { bits: P8 });
    seq![
        polar(a.cx, a.cy, foot, left),
        polar(a.cx, a.cy, f_add(r, or_default(a.ray_length, whole(80))), middle),
        polar(a.cx, a.cy, foot, right),
    ]
}

fn point_from(cx: Double, cy: Double, r: Double, d: Direction) -> (p: Point)
    ensures
        p == polar(cx, cy, r, d),
{
    Point { x: plus(cx, times(r, d.cosine)), y: plus(cy, times(r, d.sine)) }
}

/// The outline of a ray.
pub fn flare_ray(a: &FlareArgs, middle: Direction, left: Direction, right: Direction) -> (r: Vec<
    PathEl,
>)
    ensures
        r@ == polygon_through(ray_corners(*a, middle, left, right)),
{
    let r = given_or_default(a.halo_radius, from_count(50));
    let foot = times(r, Double { bits: P8 });
    let tip = plus(r, given_or_default(a.ray_length, from_count(80)));
    let mut corners: Vec<Point> = Vec::new();
    corners.push(point_from(a.cx, a.cy, foot, left));
    corners.push(point_from(a.cx, a.cy, tip, middle));
    corners.push(point_from(a.cx, a.cy, foot, right));
    assert(corners@ =~= ray_corners(*a, middle, left, right));
    polygon(&corners)
}

/// 0.01 as a number.
pub const LEAST_TURNS: u64 = 0x3f84_7ae1_47ae_147b;

/// The number of segments of a spiral, before it is held against the limit.
pub open spec fn spiral_segments(turns: Double, per_turn: usize) -> Double {
    f_round(
        f_mul(
            f_max(turns, Double { bits: LEAST_TURNS }),
            whole(
                if per_turn >= 4 {
                    per_turn as nat
                } else {
                    4
                },
            ),
        ),
    )
}

/// Why a spiral is not made. `limit` is the number of segments that may be made.
pub open spec fn spiral_error(outer: Double, turns: Double, per_turn: usize, limit: usize) -> Option<
    Seq<char>,
> {
    let zero = (Double { bits: 0 });
    let segments = spiral_segments(turns, per_turn);
    if f_at_most(outer, zero) {
        Some("outer_radius must be greater than 0"@)
    } else if !turns.wf() || f_at_most(turns, zero) {
        Some("turns must be a finite number greater than 0"@)
    } else if !segments.wf() || f_less(whole(limit as nat), segments) {
        Some(
            "create_spiral may generate at most "@ + decimal_text(limit as nat)
                + " Bézier segments"@,
        )
    } else {
        None
    }
}

fn finite(x: Double) -> (r: bool)
    ensures
        r == x.wf(),
{
    if x.bits >= SIGN {
        x.bits - SIGN < INFINITE
    } else {
        x.bits < INFINITE
    }
}

/// The name of a spiral, unless it is refused.
pub fn create_spiral(
    outer: Double,
    turns: Double,
    per_turn: usize,
    limit: usize,
    name: Option<&str>,
) -> (r: Result<String, String>)
    ensures
        match r {
            Err(e) => spiral_error(outer, turns, per_turn, limit) == Some(e@),
            Ok(n) => spiral_error(outer, turns, per_turn, limit) is None && n@ == name_or(
                str_view(name),
                "Spiral"@,
            ),
        },
{
    let zero = Double { bits: 0 };
    if at_most(outer, zero) {
        return Err("outer_radius must be greater than 0".to_owned());
    }
    if !finite(turns) || at_most(turns, zero) {
        return Err("turns must be a finite number greater than 0".to_owned());
    }
    let per: usize = if per_turn >= 4 {
        per_turn
    } else {
        4
    };
    let segments = round_number(
        times(maximum(turns, Double { bits: LEAST_TURNS }), from_count(per as u64)),
    );
    if !finite(segments) || less(from_count(limit as u64), segments) {
        return Err(
            count_text("create_spiral may generate at most ", limit, " Bézier segments"),
        );
    }
    Ok(choose_name(name, "Spiral"))
}

/// A polar grid.
#[derive(Debug)]
pub struct PolarGrid {
    pub inner: Double,
    pub rings: usize,
    pub sectors: usize,
    pub name: String,
}

pub open spec fn count_or(n: Option<usize>, default: nat) -> nat {
    match n {
        Some(v) => if v >= 1 {
            v as nat
        } else {
            1
        },
        None => default,
    }
}

fn one_or_more(n: Option<usize>, default: usize) -> (r: usize)
    requires
        default >= 1,
    ensures
        r == count_or(n, default as nat),
        r >= 1,
{
    match n {
        Some(v) => if v >= 1 {
            v
        } else {
            1
        },
        None => default,
    }
}

/// A polar grid with 4 rings and 8 sectors by default.
pub fn create_polar_grid(
    outer: Double,
    inner: Option<Double>,
    rings: Option<usize>,
    sectors: Option<usize>,
    name: Option<&str>,
) -> (r: Result<PolarGrid, String>)
    ensures
        match r {
            Err(e) => f_at_most(outer, Double { bits: 0 }) && e@
                == "outer_radius must be greater than 0"@,
            Ok(g) => {
                &&& !f_at_most(outer, Double { bits: 0 })
                &&& g.inner == f_max(or_default(inner, Double { bits: 0 }), Double { bits: 0 })
                &&& g.rings == count_or(rings, 4)
                &&& g.sectors == count_or(sectors, 8)
                &&& g.name@ == name_or(
                    str_view(name),
                    "Polar Grid "@ + decimal_text(g.rings as nat) + "r "@ + decimal_text(
                        g.sectors as nat,
                    ) + "s"@,
                )
            },
        },
{
    let zero = Double { bits: 0 };
    if at_most(outer, zero) {
        return Err("outer_radius must be greater than 0".to_owned());
    }
    let rings: usize = one_or_more(rings, 4);
    let sectors: usize = one_or_more(sectors, 8);
    let mut v = chars_of("Polar Grid ");
    push_all(&mut v, &number_text(rings as u64));
    push_str(&mut v, "r ");
    push_all(&mut v, &number_text(sectors as u64));
    push_str(&mut v, "s");
    let default = text_of(&v);
    Ok(
        PolarGrid {
            inner: maximum(given_or_default(inner, zero), zero),
            rings,
            sectors,
            name: choose_name(name, default.as_str()),
        },
    )
}

/// A grid of cells.
#[derive(Debug)]
pub struct CellGrid {
    pub cols: usize,
    pub rows: usize,
    pub name: String,
}

/// A grid of 4 times 4 cells by default.
pub fn create_grid(
    width: Double,
    height: Double,
    cols: Option<usize>,
    rows: Option<usize>,
    name: Option<&str>,
) -> (r: Result<CellGrid, String>)
    ensures
        ({
            let zero = (Double { bits: 0 });
            let refused = f_at_most(width, zero) || f_at_most(height, zero);
            match r {
                Err(e) => refused && e@ == "width and height must be greater than 0"@,
                Ok(g) => {
                    &&& !refused
                    &&& g.cols == count_or(cols, 4)
                    &&& g.rows == count_or(rows, 4)
                    &&& g.name@ == name_or(
                        str_view(name),
                        "Grid "@ + decimal_text(g.cols as nat) + "×"@ + decimal_text(
                            g.rows as nat,
                        ),
                    )
                },
            }
        }),
{
    let zero = Double { bits: 0 };
    if at_most(width, zero) || at_most(height, zero) {
        return Err("width and height must be greater than 0".to_owned());
    }
    let cols: usize = one_or_more(cols, 4);
    let rows: usize = one_or_more(rows, 4);
    let mut v = chars_of("Grid ");
    push_all(&mut v, &number_text(cols as u64));
    push_str(&mut v, "×");
    push_all(&mut v, &number_text(rows as u64));
    let default = text_of(&v);
    Ok(CellGrid { cols, rows, name: choose_name(name, default.as_str()) })
}

/// The points in the order in which they are connected; in their own order where
/// none is given.
pub open spec fn connected(points: Seq<Point>, order: Option<Seq<usize>>) -> Seq<Point> {
    match order {
        Some(o) => Seq::new(o.len(), |i: int| points[o[i] as int]),
        None => points,
    }
}

/// The first index that stands for no point.
pub open spec fn first_outside(order: Seq<usize>, len: nat, n: nat) -> Option<usize>
    decreases n,
{
    if n == 0 {
        None
    } else {
        match first_outside(order, len, (n - 1) as nat) {
            Some(i) => Some(i),
            None => if order[n - 1] >= len {
                Some(order[n - 1])
            } else {
                None
            },
        }
    }
}

proof fn lemma_first_outside(order: Seq<usize>, len: nat, i: nat, n: nat)
    requires
        i <= n,
        first_outside(order, len, i) is Some,
    ensures
        first_outside(order, len, n) == first_outside(order, len, i),
    decreases n,
{
    if i < n {
        lemma_first_outside(order, len, i, (n - 1) as nat);
    }
}

pub open spec fn order_view(order: Option<Vec<usize>>) -> Option<Seq<usize>> {
    match order {
        Some(o) => Some(o@),
        None => None,
    }
}

/// Why points are not connected.
pub open spec fn connect_error(points: nat, order: Option<Seq<usize>>) -> Option<Seq<char>> {
    if points < 2 {
        Some("At least 2 points are required"@)
    } else {
        match order {
            None => None,
            Some(o) => if o.len() == 0 {
                Some("connection_order must contain at least one index"@)
            } else {
                match first_outside(o, points, o.len()) {
                    Some(i) => Some(
                        "connection_order index "@ + decimal_text(i as nat)
                            + " is out of bounds (have "@ + decimal_text(points) + " points)"@,
                    ),
                    None => None,
                }
            },
        }
    }
}

/// A line through points in a given order, closed where that is asked for.
pub fn build_shape_from_points(
    points: &Vec<Point>,
    order: &Option<Vec<usize>>,
    closed: bool,
) -> (r: Result<Vec<PathEl>, String>)
    ensures
        match r {
            Err(e) => connect_error(points@.len(), order_view(*order)) == Some(e@),
            Ok(p) => {
                let line = line_through(connected(points@, order_view(*order)));
                &&& connect_error(points@.len(), order_view(*order)) is None
                &&& p@ == if closed {
                    line.push(PathEl::ClosePath)
                } else {
                    line
                }
            },
        },
{
    if points.len() < 2 {
        return Err("At least 2 points are required".to_owned());
    }
    let mut path: Vec<PathEl> = match order {
        None => polyline(points),
        Some(o) => {
            if o.len() == 0 {
                return Err("connection_order must contain at least one index".to_owned());
            }
            let ghost goal = connected(points@, order_view(*order));
            let mut line: Vec<Point> = Vec::new();
            let mut i: usize = 0;
            while i < o.len()
                invariant
                    i <= o.len(),
                    o.len() > 0,
                    points.len() >= 2,
                    order_view(*order) == Some(o@),
                    first_outside(o@, points@.len(), i as nat) is None,
                    goal == Seq::new(o@.len(), |i: int| points@[o@[i] as int]),
                    line@ == goal.take(i as int),
                decreases o.len() - i,
            {
                let k: usize = o[i];
                if k >= points.len() {
                    proof {
                        lemma_first_outside(o@, points@.len(), (i + 1) as nat, o@.len());
                    }
                    let mut v = chars_of("connection_order index ");
                    push_all(&mut v, &number_text(k as u64));
                    push_str(&mut v, " is out of bounds (have ");
                    push_all(&mut v, &number_text(points.len() as u64));
                    push_str(&mut v, " points)");
                    return Err(text_of(&v));
                }
                line.push(points[k]);
                i += 1;
                assert(line@ =~= goal.take(i as int));
            }
            assert(line@ =~= goal);
            polyline(&line)
        },
    };
    if closed {
        path.push(PathEl::ClosePath);
    }
    Ok(path)
}

/// The name of a shape from points and what is said about it.
pub fn name_point_shape(points: usize, name: Option<&str>, id: u128) -> (r: Named)
    ensures
        r.name@ == name_or(str_view(name), "Custom Shape"@),
        r.message@ == quoted_name(
            "Created"@,
            r.name@,
            counted(" from "@, points as nat, " points (id: "@ + id_text(id) + ")"@),
        ),
{
    let name = choose_name(name, "Custom Shape");
    let tail = around_id(" points (id: ", id, ")");
    let behind = count_text(" from ", points, tail.as_str());
    let message = quoted_text("Created", name.as_str(), behind.as_str());
    Named { name, message }
}

/// A freehand line through points, its name, and what is said about it.
pub fn create_freehand_path(points: &Vec<Point>, name: Option<&str>, id: u128) -> (r: Result<
    (Vec<PathEl>, Named),
    String,
>)
    ensures
        match r {
            Err(e) => points@.len() < 2 && e@
                == "create_freehand_path requires at least 2 points"@,
            Ok((p, n)) => {
                &&& points@.len() >= 2
                &&& p@ == line_through(points@)
                &&& n.name@ == name_or(str_view(name), "Pencil"@)
                &&& n.message@ == quoted_name(
                    "Created freehand path"@,
                    n.name@,
                    " ("@ + decimal_text(points@.len()) + " points, id: "@ + id_text(id) + ")"@,
                )
            },
        },
{
    if points.len() < 2 {
        return Err("create_freehand_path requires at least 2 points".to_owned());
    }
    let name = choose_name(name, "Pencil");
    let mut v = chars_of(" (");
    push_all(&mut v, &number_text(points.len() as u64));
    push_str(&mut v, " points, id: ");
    push_id(&mut v, id);
    push_str(&mut v, ")");
    let tail = text_of(&v);
    let message = quoted_text("Created freehand path", name.as_str(), tail.as_str());
    Ok((polyline(points), Named { name, message }))
}

/// The background of a QR code.
#[derive(Debug, Clone, Copy, PartialEq, Eq, Structural)]
pub enum QrBackground {
    White,
    Transparent,
    Solid(Color),
}

/// A QR code as it is asked for.
#[derive(Debug)]
pub struct QrArgs {
    pub data: String,
    /// The shape of the modules is known, or none is given.
    pub shape_known: bool,
    /// The error correction is known, or none is given.
    pub ecc_known: bool,
    pub radius: Option<Double>,
    pub size: Option<Double>,
    pub quiet_zone: Option<usize>,
    pub x: Option<Double>,
    pub y: Option<Double>,
    /// Why the fill that is given cannot be used.
    pub fill_error: Option<String>,
    pub background: Option<ColorArg>,
    pub layer_id: Option<String>,
}

/// What a QR code is built from.
#[derive(Debug, Clone, Copy, PartialEq, Eq, Structural)]
pub struct QrOptions {
    pub radius: Double,
    pub size: Double,
    pub quiet_zone: usize,
}

/// A QR code that was built: the side of its square, and how many modules it has on
/// a side.
#[derive(Debug, Clone, Copy, PartialEq, Eq, Structural)]
pub struct QrArt {
    pub side: Double,
    pub modules: usize,
}

/// The group of a QR code: its children from the back to the front, what the first of
/// them is filled with where it is a background, where they stand, and how many
/// entries all this adds to the history.
#[derive(Debug)]
pub struct QrPlan {
    pub children: Vec<String>,
    pub background: QrBackground,
    pub side: Double,
    pub x: Double,
    pub y: Double,
    pub layer: u128,
    pub name: String,
    /// Where the group stands in its layer; at the top where there are fewer nodes.
    pub group_index: usize,
    pub entries: usize,
    pub message: String,
}

/// Two texts are the same but for the case of the letters A to Z.
pub open spec fn same_but_case(a: Seq<char>, b: Seq<char>) -> bool {
    crate::painting::ascii_lower(a) == crate::painting::ascii_lower(b)
}

/// Why a QR code is not built.
pub open spec fn qr_error(args: QrArgs) -> Option<Seq<char>> {
    if !args.shape_known {
        Some("module_shape must be square, rounded, dot, or connected"@)
    } else if !args.ecc_known {
        Some("ecc must be l, m, q, or h"@)
    } else {
        None
    }
}

/// What a QR code is built from, unless its looks are not known.
pub fn qr_options(args: &QrArgs) -> (r: Result<QrOptions, String>)
    ensures
        match r {
            Err(e) => qr_error(*args) == Some(e@),
            Ok(o) => qr_error(*args) is None && o == (QrOptions {
                radius: or_default(args.radius, Double { bits: P4 }),
                size: or_default(args.size, whole(200)),
                quiet_zone: match args.quiet_zone {
                    Some(n) => n,
                    None => 4,
                },
            }),
        },
{
    if !args.shape_known {
        return Err("module_shape must be square, rounded, dot, or connected".to_owned());
    }
    if !args.ecc_known {
        return Err("ecc must be l, m, q, or h".to_owned());
    }
    Ok(
        QrOptions {
            radius: given_or_default(args.radius, Double { bits: P4 }),
            size: given_or_default(args.size, from_count(200)),
            quiet_zone: match args.quiet_zone {
                Some(n) => n,
                None => 4,
            },
        },
    )
}

/// The background that is asked for, or why there is none.
pub open spec fn background_of(background: Option<ColorArg>) -> Result<QrBackground, Seq<char>> {
    match background {
        None => Ok(QrBackground::White),
        Some(c) => if same_but_case(c.text@, "none"@) {
            Ok(QrBackground::Transparent)
        } else {
            match c.color {
                Some(v) => Ok(QrBackground::Solid(v)),
                None => Err(
                    quoted_name(
                        "Invalid background"@,
                        c.text@,
                        " (expected #rrggbb or 'none')"@,
                    ),
                ),
            }
        },
    }
}

/// The background of a QR code: white where none is given, none at all where that is
/// asked for, or a colour.
pub fn qr_background(background: &Option<ColorArg>) -> (r: Result<QrBackground, String>)
    ensures
        match r {
            Ok(b) => background_of(*background) == Ok::<QrBackground, Seq<char>>(b),
            Err(e) => background_of(*background) == Err::<QrBackground, Seq<char>>(e@),
        },
{
    match background {
        None => Ok(QrBackground::White),
        Some(c) => {
            let small = crate::painting::lower_ascii(c.text.as_str());
            let none = crate::painting::lower_ascii("none");
            if same_text(small.as_str(), none.as_str()) {
                return Ok(QrBackground::Transparent);
            }
            match c.color {
                Some(v) => Ok(QrBackground::Solid(v)),
                None => Err(
                    quoted_text(
                        "Invalid background",
                        c.text.as_str(),
                        " (expected #rrggbb or 'none')",
                    ),
                ),
            }
        },
    }
}

/// Why a QR code is not made, in the order in which it is asked.
pub open spec fn qr_failure(args: QrArgs, art: Result<QrArt, String>) -> Option<Seq<char>> {
    match qr_error(args) {
        Some(e) => Some(e),
        None => match art {
            Err(e) => Some(e@),
            Ok(_) => match args.fill_error {
                Some(e) => Some(e@),
                None => match background_of(args.background) {
                    Err(e) => Some(e),
                    Ok(_) => None,
                },
            },
        },
    }
}

/// What is said about a QR code; `style` is how the shape of its modules is shown.
pub open spec fn qr_message(art: QrArt, style: Seq<char>, data: Seq<char>) -> Seq<char> {
    "Created QR code — "@ + decimal_text(art.modules as nat) + "×"@ + decimal_text(
        art.modules as nat,
    ) + " modules, "@ + style + " style, encoding: "@ + data
}

/// Makes a QR code out of what was built from [`qr_options`]: a group of the modules
/// in front of their background.
pub fn create_qr_code(
    args: &QrArgs,
    art: Result<QrArt, String>,
    style: &str,
    active_layer: Option<u128>,
) -> (r: Result<QrPlan, String>)
    ensures
        match r {
            Err(e) => qr_failure(*args, art) == Some(e@),
            Ok(p) => {
                &&& qr_failure(*args, art) is None
                &&& background_of(args.background) == Ok::<QrBackground, Seq<char>>(p.background)
                &&& texts(p.children@) == if p.background == QrBackground::Transparent {
                    seq!["QR Modules"@]
                } else {
                    seq!["QR Background"@, "QR Modules"@]
                }
                &&& p.side == art->Ok_0.side
                &&& p.x == or_default(args.x, Double { bits: 0 })
                &&& p.y == or_default(args.y, Double { bits: 0 })
                &&& p.layer == layer_or_active(args.layer_id, active_layer)
                &&& p.name@ == "QR Code"@
                &&& p.group_index == usize::MAX
                &&& p.entries == 1
                &&& p.message@ == qr_message(art->Ok_0, style@, args.data@)
            },
        },
{
    if let Err(e) = qr_options(args) {
        return Err(e);
    }
    let art = match art {
        Err(e) => {
            return Err(e);
        },
        Ok(a) => a,
    };
    if let Some(e) = &args.fill_error {
        return Err(e.as_str().to_owned());
    }
    let background = match qr_background(&args.background) {
        Err(e) => {
            return Err(e);
        },
        Ok(b) => b,
    };
    let mut children: Vec<String> = Vec::new();
    if background != QrBackground::Transparent {
        children.push("QR Background".to_owned());
    }
    children.push("QR Modules".to_owned());
    assert(texts(children@) =~= if background == QrBackground::Transparent {
        seq!["QR Modules"@]
    } else {
        seq!["QR Background"@, "QR Modules"@]
    });
    let mut v = chars_of("Created QR code — ");
    push_all(&mut v, &number_text(art.modules as u64));
    push_str(&mut v, "×");
    push_all(&mut v, &number_text(art.modules as u64));
    push_str(&mut v, " modules, ");
    push_str(&mut v, style);
    push_str(&mut v, " style, encoding: ");
    push_str(&mut v, args.data.as_str());
    let zero = Double { bits: 0 };
    Ok(
        QrPlan {
            children,
            background,
            side: art.side,
            x: given_or_default(args.x, zero),
            y: given_or_default(args.y, zero),
            layer: find_layer(&args.layer_id, active_layer),
            name: "QR Code".to_owned(),
            group_index: usize::MAX,
            entries: 1,
            message: text_of(&v),
        },
    )
}


/// A basic shape fills the box that it is made in: an ellipse touches all four of its edges,
/// a line runs from its one corner to the opposite one, and what is round has its middle in
/// the middle of the box and reaches no further than the nearer edges.
pub proof fn law_shape_fills_its_box(a: ShapeArgs, j: nat)
    requires
        is_plain(a.x, j),
        is_plain(a.y, j),
        is_plain(a.width, j),
        is_plain(a.height, j),
    ensures
        ({
            let left = exact(a.x);
            let top = exact(a.y);
            let right = left + exact(a.width);
            let bottom = top + exact(a.height);
            let nearer = if exact(a.width) <= exact(a.height) {
                exact(a.width)
            } else {
                exact(a.height)
            };
            match basic_shape(a) {
                BasicShape::Rect { x, y, width, height } => {
                    &&& a.shape_type == ShapeType::Rectangle
                    &&& exact(x) == left && exact(y) == top
                    &&& exact(x) + exact(width) == right && exact(y) + exact(height) == bottom
                },
                BasicShape::RoundedRect { x, y, width, height, radius } => {
                    &&& a.shape_type == ShapeType::RoundedRect
                    &&& exact(x) == left && exact(y) == top
                    &&& exact(x) + exact(width) == right && exact(y) + exact(height) == bottom
                    &&& a.corner_radius matches Some(r) ==> radius == r
                },
                BasicShape::Ellipse { cx, cy, rx, ry } => {
                    &&& a.shape_type == ShapeType::Ellipse
                    &&& exact(cx) - exact(rx) == left && exact(cx) + exact(rx) == right
                    &&& exact(cy) - exact(ry) == top && exact(cy) + exact(ry) == bottom
                },
                BasicShape::Polygon { cx, cy, radius, sides } => {
                    &&& a.shape_type == ShapeType::Polygon
                    &&& 2 * exact(cx) == left + right && 2 * exact(cy) == top + bottom
                    &&& 2 * exact(radius) == nearer
                    &&& a.sides matches Some(n) ==> sides == n
                },
                BasicShape::Star { cx, cy, outer, inner, points } => {
                    &&& a.shape_type == ShapeType::Star
                    &&& 2 * exact(cx) == left + right && 2 * exact(cy) == top + bottom
                    &&& 2 * exact(outer) == nearer
                    &&& a.sides matches Some(n) ==> points == n
                },
                BasicShape::Line { x0, y0, x1, y1 } => {
                    &&& a.shape_type == ShapeType::Line
                    &&& exact(x0) == left && exact(x1) == right
                    &&& exact(y0) == top && exact(y1) == bottom
                },
                BasicShape::Arc { cx, cy, rx, ry, start, end, closed } => {
                    &&& a.shape_type == ShapeType::Arc
                    &&& 2 * exact(cx) == left + right && 2 * exact(cy) == top + bottom
                    &&& exact(a.width) >= 0 ==> exact(cx) + exact(rx) == right
                    &&& exact(a.height) >= 0 ==> exact(cy) + exact(ry) == bottom
                    &&& a.arc_start_angle matches Some(v) ==> start == v
                    &&& a.arc_end_angle matches Some(v) ==> end == v
                    &&& closed <==> a.arc_open != Some(true)
                },
            }
        }),
{
    let h = (j - 1) as nat;
    lemma_plain(a.x, j);
    lemma_plain(a.y, j);
    lemma_plain(a.width, j);
    lemma_plain(a.height, j);
    lemma_half(a.width, j, 0x4000_0000);
    lemma_half(a.height, j, 0x4000_0000);
    lemma_add(a.x, half(a.width), h, 0x8000_0000, 0x4000_0000);
    lemma_add(a.y, half(a.height), h, 0x8000_0000, 0x4000_0000);
    lemma_add(a.x, a.width, j, 0x4000_0000, 0x4000_0000);
    lemma_add(a.y, a.height, j, 0x4000_0000, 0x4000_0000);
    lemma_order(a.width, a.height);
    assert(f_min(a.width, a.height) == a.width || f_min(a.width, a.height) == a.height);
    let zero = (Double { bits: 0 });
    lemma_zero_value(zero);
    lemma_zero_value(a.width);
    lemma_zero_value(a.height);
    lemma_order(zero, a.width);
    lemma_order(zero, a.height);
    lemma_same_half(a.width, j);
    lemma_same_half(a.height, j);
}

proof fn lemma_same_half(x: Double, j: nat)
    requires
        is_plain(x, j),
    ensures
        exact(x) >= 0 ==> 2 * exact(half(f_abs(x))) == exact(x),
{
    if exact(x) >= 0 {
        let zero = (Double { bits: 0 });
        lemma_zero_value(zero);
        lemma_order(zero, x);
        lemma_plain(x, j);
        assert(f_abs(x).key() == x.key());
        lemma_same_value(f_abs(x), x);
        lemma_steps(f_abs(x), j, steps(x, j));
        lemma_half(f_abs(x), j, 0x4000_0000);
    }
}

/// A ray of a flare stands on the halo with its two outer corners, to its left and its right,
/// and has its tip between them; the feet do not depend on how long the ray is.
pub proof fn law_rays_stand_on_the_halo(
    a: FlareArgs,
    b: FlareArgs,
    middle: Direction,
    left: Direction,
    right: Direction,
    other: Direction,
)
    requires
        a.cx == b.cx,
        a.cy == b.cy,
        a.halo_radius == b.halo_radius,
    ensures
        ({
            let p = ray_corners(a, middle, left, right);
            &&& p.len() == 3
            &&& p[0] == ray_corners(b, other, left, other)[0]
            &&& p[2] == ray_corners(b, other, other, right)[2]
            &&& p[1] == ray_corners(a, middle, other, other)[1]
            &&& p[0] == ray_corners(b, middle, right, left)[2]
        }),
{
}

/// Where points are connected in an order, the line goes through those that the order names,
/// one after the other; without one, through all as they come.
pub proof fn law_points_are_connected_in_order(
    points: Seq<Point>,
    order: Option<Seq<usize>>,
    i: int,
)
    requires
        order matches Some(o) ==> 0 <= i < o.len() && o[i] < points.len(),
        order is None ==> 0 <= i < points.len(),
    ensures
        ({
            let path = line_through(connected(points, order));
            let at = match order {
                Some(o) => points[o[i] as int],
                None => points[i],
            };
            &&& i == 0 ==> path[i] == PathEl::MoveTo(at)
            &&& i > 0 ==> path[i] == PathEl::LineTo(at)
        }),
{
}

} // verus!
