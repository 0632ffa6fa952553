//! Transforming nodes, flipping them, and taking groups apart.
use crate::bezier::{path_with_points, Affine, Bounds, PathEl, Point};
use crate::bignum::power;
use crate::canvas::{box_of_path, path_box};
use crate::double::{Double, INFINITE, SIGN};
use crate::float::{
    exact, f_add, f_mul, f_neg, f_sub, from_count, half, halved, lemma_opposite, minus, nan, plus,
    times, whole,
};
use crate::plan::holds;
use crate::scene::{
    count_text, counted, find_node, found_positions, has_node, id_text, position_of,
    positions_found, push_id, resolve_targets, targets, Node, NodeKind,
};
use crate::steps::{
    is_plain, lemma_add, lemma_difference_of_steps, lemma_finer, lemma_half, lemma_half_of_steps,
    lemma_plain, lemma_sub, lemma_sum_of_steps, lemma_times, steps,
};
use crate::text::{
    chars_of, decimal_text, number_text, push_all, push_str, same_text, text_of, texts,
};
use vstd::prelude::*;

verus! {

#[derive(Debug, Clone, Copy, PartialEq, Eq, Structural)]
pub enum TransformOperation {
    Translate,
    Rotate,
    Scale,
    Matrix,
    ReflectHorizontal,
    ReflectVertical,
    Shear,
}

/// A shift along the axes.
#[derive(Debug, Clone, Copy, PartialEq, Eq, Structural)]
pub struct Translation {
    pub x: Double,
    pub y: Double,
}

/// A turn about a point.
#[derive(Debug, Clone, Copy, PartialEq, Eq, Structural)]
pub struct Rotation {
    pub degrees: Double,
    pub origin: Point,
}

/// Two factors, one along each axis, about a point. They scale or they shear.
#[derive(Debug, Clone, Copy, PartialEq, Eq, Structural)]
pub struct Factors {
    pub x: Double,
    pub y: Double,
    pub origin: Point,
}

/// A transformation that is asked for: what is done, and the parameters that are
/// given.
#[derive(Debug, Clone, Copy, PartialEq, Eq, Structural)]
pub struct TransformRequest {
    pub operation: TransformOperation,
    pub translate: Option<Translation>,
    pub rotate: Option<Rotation>,
    pub scale: Option<Factors>,
    pub shear: Option<Factors>,
    pub matrix: Option<Affine>,
}

/// What is known of the geometry of a path.
#[derive(Debug)]
pub enum Geometry {
    Drawable,
    /// There is no segment to draw.
    Empty,
    /// The path data cannot be read, for the given reason.
    Invalid(String),
}

/// What is done to a node.
#[derive(Debug, Clone, Copy, PartialEq, Eq, Structural)]
pub enum NodeTransform {
    Translate(Translation),
    Rotate(Rotation),
    Scale(Factors),
    Matrix(Affine),
    /// Reflected at the vertical line through this x.
    ReflectHorizontal(Double),
    /// Reflected at the horizontal line through this y.
    ReflectVertical(Double),
    Shear(Factors),
}

/// A node that is transformed.
#[derive(Debug, Clone, Copy, PartialEq, Eq, Structural)]
pub struct Transformed {
    pub position: usize,
    pub transform: NodeTransform,
}

/// What is done to the nodes, how many entries this adds to the history, and what is
/// said.
#[derive(Debug)]
pub struct TransformPlan {
    pub steps: Vec<Transformed>,
    pub entries: usize,
    pub message: String,
}

/// The parameter that the operation needs and that is not there.
pub open spec fn missing_parameter(q: TransformRequest) -> Option<Seq<char>> {
    match q.operation {
        TransformOperation::Translate => if q.translate is Some {
            None
        } else {
            Some("translate"@)
        },
        TransformOperation::Rotate => if q.rotate is Some {
            None
        } else {
            Some("rotate"@)
        },
        TransformOperation::Scale => if q.scale is Some {
            None
        } else {
            Some("scale"@)
        },
        TransformOperation::Matrix => if q.matrix is Some {
            None
        } else {
            Some("matrix"@)
        },
        TransformOperation::Shear => if q.shear is Some {
            None
        } else {
            Some("shear"@)
        },
        _ => None,
    }
}

pub open spec fn all_finite(m: Affine) -> bool {
    m.a.wf() && m.b.wf() && m.c.wf() && m.d.wf() && m.e.wf() && m.f.wf()
}

/// Why a path cannot be transformed.
pub open spec fn geometry_error(node: Node, g: Geometry) -> Option<Seq<char>> {
    if node.kind != NodeKind::Path {
        None
    } else {
        match g {
            Geometry::Drawable => None,
            Geometry::Empty => Some(
                "Cannot transform path node "@ + id_text(node.id)
                    + ": path has no drawable geometry"@,
            ),
            Geometry::Invalid(why) => Some(
                "Cannot transform path node "@ + id_text(node.id) + ": invalid geometry: "@ + why@,
            ),
        }
    }
}

/// The reason of the first path that cannot be transformed.
pub open spec fn first_geometry_error(
    nodes: Seq<Node>,
    geometry: Seq<Geometry>,
    positions: Seq<usize>,
) -> Option<Seq<char>>
    decreases positions.len(),
{
    if positions.len() == 0 {
        None
    } else {
        match first_geometry_error(nodes, geometry, positions.drop_last()) {
            Some(e) => Some(e),
            None => {
                let k = positions.last() as int;
                geometry_error(nodes[k], geometry[k])
            },
        }
    }
}

proof fn lemma_first_geometry_error(
    nodes: Seq<Node>,
    geometry: Seq<Geometry>,
    positions: Seq<usize>,
    i: int,
)
    requires
        0 <= i <= positions.len(),
        first_geometry_error(nodes, geometry, positions.take(i)) is Some,
    ensures
        first_geometry_error(nodes, geometry, positions) == first_geometry_error(
            nodes,
            geometry,
            positions.take(i),
        ),
    decreases positions.len() - i,
{
    if i == positions.len() {
        assert(positions.take(i) =~= positions);
    } else {
        assert(positions.take(i + 1).drop_last() =~= positions.take(i));
        lemma_first_geometry_error(nodes, geometry, positions, i + 1);
    }
}

/// The ids that are transformed: those that are given, or the selection.
pub open spec fn ids_or_selection(ids: Seq<u128>, selection: Seq<u128>) -> Seq<u128> {
    if ids.len() == 0 {
        selection
    } else {
        ids
    }
}

/// Why nothing is transformed.
pub open spec fn transform_error(
    nodes: Seq<Node>,
    geometry: Seq<Geometry>,
    ids: Seq<u128>,
    q: TransformRequest,
) -> Option<Seq<char>> {
    let positions = found_positions(nodes, ids, false);
    match missing_parameter(q) {
        Some(p) => Some("apply_transform operation requires the '"@ + p + "' parameter"@),
        None => if q.matrix matches Some(m) && !all_finite(m) {
            Some("Transform matrix coefficients must be finite"@)
        } else if positions.len() == 0 {
            Some("No nodes specified and no active selection"@)
        } else {
            first_geometry_error(nodes, geometry, positions)
        },
    }
}

/// The middle between two coordinates, reckoned from the first.
pub open spec fn middle(from: Double, to: Double) -> Double {
    f_add(from, half(f_sub(to, from)))
}

/// What is done to a node. Reflections go through the middle of its box.
pub open spec fn node_transform(node: Node, q: TransformRequest) -> NodeTransform {
    match q.operation {
        TransformOperation::Translate => NodeTransform::Translate(q.translate->0),
        TransformOperation::Rotate => NodeTransform::Rotate(q.rotate->0),
        TransformOperation::Scale => NodeTransform::Scale(q.scale->0),
        TransformOperation::Matrix => NodeTransform::Matrix(q.matrix->0),
        TransformOperation::ReflectHorizontal => NodeTransform::ReflectHorizontal(
            match node.bounds {
                Some(b) => middle(b.x0, b.x1),
                None => Double { bits: 0 },
            },
        ),
        TransformOperation::ReflectVertical => NodeTransform::ReflectVertical(
            match node.bounds {
                Some(b) => middle(b.y0, b.y1),
                None => Double { bits: 0 },
            },
        ),
        TransformOperation::Shear => NodeTransform::Shear(q.shear->0),
    }
}

pub open spec fn transform_steps(
    nodes: Seq<Node>,
    positions: Seq<usize>,
    q: TransformRequest,
) -> Seq<Transformed> {
    Seq::new(
        positions.len(),
        |i: int|
            Transformed {
                position: positions[i],
                transform: node_transform(nodes[positions[i] as int], q),
            },
    )
}

fn is_finite_number(x: Double) -> (r: bool)
    ensures
        r == x.wf(),
{
    if x.bits >= SIGN {
        x.bits - SIGN < INFINITE
    } else {
        x.bits < INFINITE
    }
}

fn middle_of(from: Double, to: Double) -> (r: Double)
    ensures
        r == middle(from, to),
{
    plus(from, halved(minus(to, from)))
}

fn find_missing(q: &TransformRequest) -> (r: Option<&'static str>)
    ensures
        match r {
            Some(p) => missing_parameter(*q) == Some(p@),
            None => missing_parameter(*q) is None,
        },
{
    match q.operation {
        TransformOperation::Translate => if q.translate.is_some() {
            None
        } else {
            Some("translate")
        },
        TransformOperation::Rotate => if q.rotate.is_some() {
            None
        } else {
            Some("rotate")
        },
        TransformOperation::Scale => if q.scale.is_some() {
            None
        } else {
            Some("scale")
        },
        TransformOperation::Matrix => match q.matrix {
            Some(_) => None,
            None => Some("matrix"),
        },
        TransformOperation::Shear => if q.shear.is_some() {
            None
        } else {
            Some("shear")
        },
        _ => None,
    }
}

fn step_of(node: &Node, q: &TransformRequest) -> (r: NodeTransform)
    requires
        missing_parameter(*q) is None,
    ensures
        r == node_transform(*node, *q),
{
    let zero = Double { bits: 0 };
    match q.operation {
        TransformOperation::Translate => NodeTransform::Translate(q.translate.unwrap()),
        TransformOperation::Rotate => NodeTransform::Rotate(q.rotate.unwrap()),
        TransformOperation::Scale => NodeTransform::Scale(q.scale.unwrap()),
        TransformOperation::Matrix => NodeTransform::Matrix(q.matrix.unwrap()),
        TransformOperation::ReflectHorizontal => NodeTransform::ReflectHorizontal(
            match &node.bounds {
                Some(b) => middle_of(b.x0, b.x1),
                None => zero,
            },
        ),
        TransformOperation::ReflectVertical => NodeTransform::ReflectVertical(
            match &node.bounds {
                Some(b) => middle_of(b.y0, b.y1),
                None => zero,
            },
        ),
        TransformOperation::Shear => NodeTransform::Shear(q.shear.unwrap()),
    }
}

/// Transforms the nodes that are given, or the selection. `geometry` holds what is
/// known of each node's path. All of this is one entry of the history.
pub fn apply_transform(
    nodes: &Vec<Node>,
    geometry: &Vec<Geometry>,
    selection: &Vec<u128>,
    ids: &Vec<u128>,
    q: &TransformRequest,
) -> (r: Result<TransformPlan, String>)
    requires
        geometry.len() == nodes.len(),
    ensures
        ({
            let used = ids_or_selection(ids@, selection@);
            let positions = found_positions(nodes@, used, false);
            match r {
                Err(e) => transform_error(nodes@, geometry@, used, *q) == Some(e@),
                Ok(p) => {
                    &&& transform_error(nodes@, geometry@, used, *q) is None
                    &&& p.steps@ == transform_steps(nodes@, positions, *q)
                    &&& p.entries == 1
                    &&& p.message@ == counted("Transformed "@, positions.len(), " node(s)"@)
                },
            }
        }),
{
    if let Some(p) = find_missing(q) {
        let mut v = chars_of("apply_transform operation requires the '");
        push_str(&mut v, p);
        push_str(&mut v, "' parameter");
        return Err(text_of(&v));
    }
    if let Some(m) = &q.matrix {
        if !(is_finite_number(m.a) && is_finite_number(m.b) && is_finite_number(m.c)
            && is_finite_number(m.d) && is_finite_number(m.e) && is_finite_number(m.f)) {
            return Err("Transform matrix coefficients must be finite".to_owned());
        }
    }
    let used: &Vec<u128> = if ids.len() == 0 {
        selection
    } else {
        ids
    };
    let positions = positions_found(nodes, used, false);
    if positions.len() == 0 {
        return Err("No nodes specified and no active selection".to_owned());
    }
    let ghost goal = transform_steps(nodes@, positions@, *q);
    let mut steps: Vec<Transformed> = Vec::new();
    let mut i: usize = 0;
    assert(positions@.take(0) =~= Seq::<usize>::empty());
    while i < positions.len()
        invariant
            i <= positions.len(),
            geometry.len() == nodes.len(),
            missing_parameter(*q) is None,
            forall|i: int| 0 <= i < positions.len() ==> (#[trigger] positions@[i]) < nodes.len(),
            goal == transform_steps(nodes@, positions@, *q),
            steps@ == goal.take(i as int),
            first_geometry_error(nodes@, geometry@, positions@.take(i as int)) is None,
            !(q.matrix matches Some(m) && !all_finite(m)),
            positions@ == found_positions(nodes@, ids_or_selection(ids@, selection@), false),
            positions.len() > 0,
        decreases positions.len() - i,
    {
        let k: usize = positions[i];
        proof {
            assert(positions@.take(i + 1).drop_last() =~= positions@.take(i as int));
            assert(positions@.take(i + 1).last() == positions@[i as int]);
        }
        if nodes[k].kind == NodeKind::Path {
            match &geometry[k] {
                Geometry::Drawable => {},
                Geometry::Empty => {
                    let mut v = chars_of("Cannot transform path node ");
                    push_id(&mut v, nodes[k].id);
                    push_str(&mut v, ": path has no drawable geometry");
                    proof {
                        lemma_first_geometry_error(nodes@, geometry@, positions@, i + 1);
                    }
                    return Err(text_of(&v));
                },
                Geometry::Invalid(why) => {
                    let mut v = chars_of("Cannot transform path node ");
                    push_id(&mut v, nodes[k].id);
                    push_str(&mut v, ": invalid geometry: ");
                    push_str(&mut v, why.as_str());
                    proof {
                        lemma_first_geometry_error(nodes@, geometry@, positions@, i + 1);
                    }
                    return Err(text_of(&v));
                },
            }
        }
        steps.push(Transformed { position: k, transform: step_of(&nodes[k], q) });
        i += 1;
        assert(steps@ =~= goal.take(i as int));
    }
    assert(steps@ =~= goal);
    assert(positions@.take(positions@.len() as int) =~= positions@);
    Ok(
        TransformPlan {
            steps,
            entries: 1,
            message: count_text("Transformed ", positions.len(), " node(s)"),
        },
    )
}

/// -1 as a number.
pub const MINUS_ONE: u64 = 0xbff0_0000_0000_0000;

/// A matrix flipped left to right or top to bottom.
pub open spec fn flipped_matrix(m: Affine, horizontal: bool, vertical: bool) -> Affine {
    let minus_one = (Double { bits: MINUS_ONE });
    let across = if horizontal {
        Affine { a: f_mul(m.a, minus_one), c: f_mul(m.c, minus_one), ..m }
    } else {
        m
    };
    if vertical {
        Affine { b: f_mul(across.b, minus_one), d: f_mul(across.d, minus_one), ..across }
    } else {
        across
    }
}

/// Flips a matrix left to right or top to bottom.
pub fn flip_matrix(m: &Affine, horizontal: bool, vertical: bool) -> (r: Affine)
    ensures
        r == flipped_matrix(*m, horizontal, vertical),
{
    let minus_one = Double { bits: MINUS_ONE };
    let mut out = *m;
    if horizontal {
        out = Affine { a: times(m.a, minus_one), c: times(m.c, minus_one), ..out };
    }
    if vertical {
        out = Affine { b: times(m.b, minus_one), d: times(m.d, minus_one), ..out };
    }
    out
}

/// A number, or the NaN that arithmetic gives.
pub open spec fn is_proper(x: Double) -> bool {
    x.is_nan() ==> x == nan()
}

/// Flipping a matrix twice about the same axis restores it.
pub proof fn law_flipped_twice(m: Affine, horizontal: bool, vertical: bool)
    requires
        horizontal ==> is_proper(m.a) && is_proper(m.c),
        vertical ==> is_proper(m.b) && is_proper(m.d),
    ensures
        flipped_matrix(flipped_matrix(m, horizontal, vertical), horizontal, vertical) == m,
{
    if horizontal {
        lemma_opposite_twice(m.a);
        lemma_opposite_twice(m.c);
    }
    if vertical {
        lemma_opposite_twice(m.b);
        lemma_opposite_twice(m.d);
    }
}

proof fn lemma_opposite_twice(x: Double)
    requires
        is_proper(x),
    ensures
        f_mul(f_mul(x, Double { bits: MINUS_ONE }), Double { bits: MINUS_ONE }) == x,
{
    let minus_one = (Double { bits: MINUS_ONE });
    if x.wf() {
        lemma_opposite(x, minus_one);
        let y = f_neg(x);
        assert(y.magnitude() == x.magnitude());
        lemma_opposite(y, minus_one);
    } else {
        reveal(f_mul);
    }
}

/// A point flipped about the middle of the box `b`.
pub open spec fn flipped_point(b: Bounds, horizontal: bool, vertical: bool, p: Point) -> Point {
    Point {
        x: if horizontal {
            f_sub(f_mul(whole(2), middle(b.x0, b.x1)), p.x)
        } else {
            p.x
        },
        y: if vertical {
            f_sub(f_mul(whole(2), middle(b.y0, b.y1)), p.y)
        } else {
            p.y
        },
    }
}

fn flip_point(b: &Bounds, horizontal: bool, vertical: bool, p: Point) -> (r: Point)
    ensures
        r == flipped_point(*b, horizontal, vertical, p),
{
    let two = from_count(2);
    Point {
        x: if horizontal {
            minus(times(two, middle_of(b.x0, b.x1)), p.x)
        } else {
            p.x
        },
        y: if vertical {
            minus(times(two, middle_of(b.y0, b.y1)), p.y)
        } else {
            p.y
        },
    }
}

/// Flips a path about the middle of its box.
pub fn flip_path(path: &Vec<PathEl>, b: &Bounds, horizontal: bool, vertical: bool) -> (r: Vec<
    PathEl,
>)
    ensures
        r@ == path_with_points(path@, |p: Point| flipped_point(*b, horizontal, vertical, p)),
{
    let ghost goal = path_with_points(
        path@,
        |p: Point| flipped_point(*b, horizontal, vertical, p),
    );
    let mut out: Vec<PathEl> = Vec::new();
    let mut i: usize = 0;
    while i < path.len()
        invariant
            i <= path.len(),
            goal == path_with_points(
                path@,
                |p: Point| flipped_point(*b, horizontal, vertical, p),
            ),
            out@ == goal.take(i as int),
        decreases path.len() - i,
    {
        out.push(
            match path[i] {
                PathEl::MoveTo(p) => PathEl::MoveTo(flip_point(b, horizontal, vertical, p)),
                PathEl::LineTo(p) => PathEl::LineTo(flip_point(b, horizontal, vertical, p)),
                PathEl::QuadTo(c, p) => PathEl::QuadTo(
                    flip_point(b, horizontal, vertical, c),
                    flip_point(b, horizontal, vertical, p),
                ),
                PathEl::CurveTo(c, d, p) => PathEl::CurveTo(
                    flip_point(b, horizontal, vertical, c),
                    flip_point(b, horizontal, vertical, d),
                    flip_point(b, horizontal, vertical, p),
                ),
                PathEl::ClosePath => PathEl::ClosePath,
            },
        );
        i += 1;
        assert(out@ =~= goal.take(i as int));
    }
    assert(out@ =~= goal);
    out
}

/// What flipping makes of a node: a path gets a new outline, everything else a new
/// matrix.
#[derive(Debug)]
pub enum Flipped {
    Outline(Vec<PathEl>),
    Matrix(Affine),
}

#[verifier::ext_equal]
pub enum FlippedView {
    Outline(Seq<PathEl>),
    Matrix(Affine),
}

impl View for Flipped {
    type V = FlippedView;

    open spec fn view(&self) -> FlippedView {
        match *self {
            Flipped::Outline(path) => FlippedView::Outline(path@),
            Flipped::Matrix(m) => FlippedView::Matrix(m),
        }
    }
}

/// What flipping makes of a node with the given outline.
pub open spec fn flipped_node(
    node: Node,
    path: Seq<PathEl>,
    horizontal: bool,
    vertical: bool,
) -> FlippedView {
    if node.kind == NodeKind::Path {
        FlippedView::Outline(
            path_with_points(
                path,
                |p: Point| flipped_point(path_box(node), horizontal, vertical, p),
            ),
        )
    } else {
        FlippedView::Matrix(flipped_matrix(node.transform, horizontal, vertical))
    }
}

/// Flips one node, whose outline is given.
pub fn flip_node(node: &Node, path: &Vec<PathEl>, horizontal: bool, vertical: bool) -> (r: Flipped)
    ensures
        r@ == flipped_node(*node, path@, horizontal, vertical),
{
    if node.kind == NodeKind::Path {
        Flipped::Outline(flip_path(path, &box_of_path(node), horizontal, vertical))
    } else {
        Flipped::Matrix(flip_matrix(&node.transform, horizontal, vertical))
    }
}

/// A node that is flipped, and what becomes of it. A node that was flipped before in
/// the same run is flipped once more as it then stands, by [`flip_node`].
#[derive(Debug)]
pub struct Flip {
    pub position: usize,
    pub flipped: Option<Flipped>,
}

pub open spec fn flip_views(v: Seq<Flip>) -> Seq<(usize, Option<FlippedView>)> {
    Seq::new(
        v.len(),
        |i: int|
            (
                v[i].position,
                match v[i].flipped {
                    Some(f) => Some(f@),
                    None => None,
                },
            ),
    )
}

/// The position stands among those before it.
pub open spec fn is_repeated(positions: Seq<usize>, i: int) -> bool {
    positions.take(i).contains(positions[i])
}

/// Whether the position stands among those before it.
pub fn repeats(positions: &Vec<usize>, i: usize) -> (r: bool)
    requires
        i < positions.len(),
    ensures
        r == is_repeated(positions@, i as int),
{
    let mut j: usize = 0;
    while j < i
        invariant
            j <= i < positions.len(),
            forall|k: int| 0 <= k < j ==> positions@[k] != positions@[i as int],
        decreases i - j,
    {
        if positions[j] == positions[i] {
            assert(positions@.take(i as int)[j as int] == positions@[i as int]);
            return true;
        }
        j += 1;
    }
    false
}

/// What flipping makes of the nodes at these positions, one after the other.
pub open spec fn flips_of(
    nodes: Seq<Node>,
    paths: Seq<Vec<PathEl>>,
    positions: Seq<usize>,
    horizontal: bool,
    vertical: bool,
) -> Seq<(usize, Option<FlippedView>)> {
    Seq::new(
        positions.len(),
        |i: int|
            (
                positions[i],
                if is_repeated(positions, i) {
                    None
                } else {
                    Some(
                        flipped_node(
                            nodes[positions[i] as int],
                            paths[positions[i] as int]@,
                            horizontal,
                            vertical,
                        ),
                    )
                },
            ),
    )
}

/// What becomes of the nodes that are flipped, how many entries this adds to the
/// history, and what is said.
#[derive(Debug)]
pub struct FlipPlan {
    pub flips: Vec<Flip>,
    pub entries: usize,
    pub message: String,
}

/// Why nothing is flipped.
pub open spec fn flip_error(ids: Seq<u128>, axis: Seq<char>) -> Option<Seq<char>> {
    if axis != "horizontal"@ && axis != "vertical"@ {
        Some("axis must be 'horizontal' or 'vertical'"@)
    } else if ids.len() == 0 {
        Some("No nodes specified and nothing selected"@)
    } else {
        None
    }
}

/// Flips nodes about an axis: the points of a path about the middle of its box,
/// everything else by its matrix. `paths` holds the outline of each node. Each flip is
/// an entry of the history.
pub fn flip_nodes(
    nodes: &Vec<Node>,
    paths: &Vec<Vec<PathEl>>,
    selection: &Vec<u128>,
    names: &Vec<String>,
    axis: &str,
) -> (r: Result<FlipPlan, String>)
    requires
        paths.len() == nodes.len(),
    ensures
        ({
            let ids = targets(nodes@, selection@, texts(names@));
            match r {
                Err(e) => flip_error(ids, axis@) == Some(e@),
                Ok(p) => {
                    &&& flip_error(ids, axis@) is None
                    &&& flip_views(p.flips@) == flips_of(
                        nodes@,
                        paths@,
                        found_positions(nodes@, ids, false),
                        axis@ == "horizontal"@,
                        axis@ == "vertical"@,
                    )
                    &&& p.entries == p.flips@.len()
                    &&& p.message@ == counted(
                        "Flipped "@,
                        found_positions(nodes@, ids, false).len(),
                        if axis@ == "horizontal"@ {
                            " node(s) horizontally"@
                        } else {
                            " node(s) vertically"@
                        },
                    )
                },
            }
        }),
{
    let horizontal = same_text(axis, "horizontal");
    let vertical = same_text(axis, "vertical");
    if !horizontal && !vertical {
        return Err("axis must be 'horizontal' or 'vertical'".to_owned());
    }
    let ids = resolve_targets(nodes, selection, names);
    if ids.len() == 0 {
        return Err("No nodes specified and nothing selected".to_owned());
    }
    let positions = positions_found(nodes, &ids, false);
    let message = count_text(
        "Flipped ",
        positions.len(),
        if horizontal {
            " node(s) horizontally"
        } else {
            " node(s) vertically"
        },
    );
    let ghost goal = flips_of(nodes@, paths@, positions@, horizontal, vertical);
    let mut flips: Vec<Flip> = Vec::new();
    let mut i: usize = 0;
    assert(flip_views(flips@) =~= goal.take(0));
    while i < positions.len()
        invariant
            i <= positions.len(),
            paths.len() == nodes.len(),
            forall|i: int| 0 <= i < positions.len() ==> (#[trigger] positions@[i]) < nodes.len(),
            goal == flips_of(nodes@, paths@, positions@, horizontal, vertical),
            flip_views(flips@) == goal.take(i as int),
        decreases positions.len() - i,
    {
        let k: usize = positions[i];
        let ghost before = flips@;
        let flipped = if repeats(&positions, i) {
            None
        } else {
            Some(flip_node(&nodes[k], &paths[k], horizontal, vertical))
        };
        flips.push(Flip { position: k, flipped });
        i += 1;
        assert(flip_views(flips@) =~= flip_views(before).push(goal[i - 1]));
        assert(goal.take(i as int) =~= goal.take(i - 1).push(goal[i - 1]));
    }
    assert(flip_views(flips@) =~= goal);
    Ok(FlipPlan { entries: flips.len(), flips, message })
}

/// A group and the order that its children get.
#[derive(Debug)]
pub struct Reversal {
    pub position: usize,
    pub children: Vec<u128>,
}

#[derive(Debug)]
pub struct ReversePlan {
    pub reversals: Vec<Reversal>,
    /// How many entries this adds to the history.
    pub entries: usize,
    pub message: String,
}

/// The reversals, by the group's position and the children.
pub open spec fn reversals_view(v: Seq<Reversal>) -> Seq<(usize, Seq<u128>)> {
    Seq::new(v.len(), |i: int| (v[i].position, v[i].children@))
}

pub open spec fn is_reversed(node: Node) -> bool {
    node.kind == NodeKind::Group && node.children@.len() > 1
}

/// The groups with more than one child, and their children in reverse.
pub open spec fn reversals_of(nodes: Seq<Node>, ids: Seq<u128>, n: nat) -> Seq<
    (usize, Seq<u128>),
>
    decreases n,
{
    if n == 0 {
        Seq::empty()
    } else {
        let before = reversals_of(nodes, ids, (n - 1) as nat);
        let k = position_of(nodes, ids[n - 1]);
        if has_node(nodes, ids[n - 1]) && is_reversed(nodes[k]) {
            before.push((k as usize, nodes[k].children@.reverse()))
        } else {
            before
        }
    }
}

fn reversed_ids(v: &Vec<u128>) -> (r: Vec<u128>)
    ensures
        r@ == v@.reverse(),
{
    let mut out: Vec<u128> = Vec::new();
    let mut i: usize = v.len();
    while i > 0
        invariant
            i <= v.len(),
            out@ == v@.reverse().take(v.len() - i),
        decreases i,
    {
        i -= 1;
        out.push(v[i]);
        assert(out@ =~= v@.reverse().take(v.len() - i));
    }
    assert(out@ =~= v@.reverse());
    out
}

/// Reverses the order of the children of groups.
pub fn reverse_node_order(nodes: &Vec<Node>, selection: &Vec<u128>, names: &Vec<String>) -> (r:
    Result<ReversePlan, String>)
    ensures
        ({
            let ids = targets(nodes@, selection@, texts(names@));
            let all = reversals_of(nodes@, ids, ids.len());
            match r {
                Err(e) => if ids.len() == 0 {
                    e@ == "No nodes specified and nothing selected"@
                } else {
                    all.len() == 0 && e@
                        == "No group nodes with 2+ children found in the specified IDs"@
                },
                Ok(p) => {
                    &&& all.len() > 0
                    &&& reversals_view(p.reversals@) == all
                    &&& p.entries == 1
                    &&& p.message@ == "Reversed child order in "@ + decimal_text(all.len())
                        + " group node(s). Skipped: "@ + decimal_text(
                        (ids.len() - all.len()) as nat,
                    ) + "."@
                },
            }
        }),
{
    let ids = resolve_targets(nodes, selection, names);
    if ids.len() == 0 {
        return Err("No nodes specified and nothing selected".to_owned());
    }
    let mut reversals: Vec<Reversal> = Vec::new();
    let mut i: usize = 0;
    assert(reversals_view(reversals@) =~= Seq::empty());
    while i < ids.len()
        invariant
            i <= ids.len(),
            reversals.len() <= i,
            reversals_view(reversals@) == reversals_of(nodes@, ids@, i as nat),
        decreases ids.len() - i,
    {
        if let Some(k) = find_node(nodes, ids[i]) {
            if nodes[k].kind == NodeKind::Group && nodes[k].children.len() > 1 {
                let ghost before = reversals@;
                let children = reversed_ids(&nodes[k].children);
                reversals.push(Reversal { position: k, children });
                assert(reversals_view(reversals@) =~= reversals_view(before).push(
                    (k, nodes@[k as int].children@.reverse()),
                ));
            }
        }
        i += 1;
    }
    if reversals.len() == 0 {
        return Err("No group nodes with 2+ children found in the specified IDs".to_owned());
    }
    let mut v = chars_of("Reversed child order in ");
    push_all(&mut v, &number_text(reversals.len() as u64));
    push_str(&mut v, " group node(s). Skipped: ");
    push_all(&mut v, &number_text((ids.len() - reversals.len()) as u64));
    push_str(&mut v, ".");
    Ok(ReversePlan { reversals, entries: 1, message: text_of(&v) })
}

/// Reversing the order of children twice restores it.
pub proof fn law_reversed_twice(children: Seq<u128>)
    ensures
        children.reverse().reverse() == children,
{
    assert(children.reverse().reverse() =~= children);
}

/// No chain of nested groups from `id` on is longer than `depth`.
pub open spec fn is_nested_within(nodes: Seq<Node>, id: u128, depth: nat) -> bool
    decreases depth,
{
    let node = nodes[position_of(nodes, id)];
    !has_node(nodes, id) || node.kind != NodeKind::Group || (depth > 0 && forall|i: int|
        0 <= i < node.children@.len() ==> is_nested_within(
            nodes,
            #[trigger] node.children@[i],
            (depth - 1) as nat,
        ))
}

/// The groups in and under `id`, inner ones first.
pub open spec fn groups_under(nodes: Seq<Node>, id: u128, depth: nat) -> Seq<u128>
    decreases depth, 1nat, 0nat,
{
    let node = nodes[position_of(nodes, id)];
    if !has_node(nodes, id) || node.kind != NodeKind::Group || depth == 0 {
        Seq::empty()
    } else {
        groups_under_all(nodes, node.children@, (depth - 1) as nat, node.children@.len()).push(id)
    }
}

/// The groups in and under the first `n` of the ids.
pub open spec fn groups_under_all(nodes: Seq<Node>, ids: Seq<u128>, depth: nat, n: nat) -> Seq<u128>
    decreases depth, 2nat, n,
{
    if n == 0 {
        Seq::empty()
    } else {
        groups_under_all(nodes, ids, depth, (n - 1) as nat) + groups_under(
            nodes,
            ids[n - 1],
            depth,
        )
    }
}

fn collect_groups(nodes: &Vec<Node>, id: u128, depth: usize, out: &mut Vec<u128>)
    requires
        is_nested_within(nodes@, id, depth as nat),
    ensures
        final(out)@ == old(out)@ + groups_under(nodes@, id, depth as nat),
    decreases depth,
{
    let ghost start = out@;
    if let Some(k) = find_node(nodes, id) {
        if nodes[k].kind == NodeKind::Group {
            let children = &nodes[k].children;
            let mut i: usize = 0;
            while i < children.len()
                invariant
                    i <= children.len(),
                    depth > 0,
                    forall|i: int|
                        0 <= i < children@.len() ==> is_nested_within(
                            nodes@,
                            #[trigger] children@[i],
                            (depth - 1) as nat,
                        ),
                    out@ == start + groups_under_all(
                        nodes@,
                        children@,
                        (depth - 1) as nat,
                        i as nat,
                    ),
                decreases children.len() - i,
            {
                collect_groups(nodes, children[i], depth - 1, out);
                i += 1;
                assert(out@ =~= start + groups_under_all(
                    nodes@,
                    children@,
                    (depth - 1) as nat,
                    i as nat,
                ));
            }
            out.push(id);
        }
    }
    assert(out@ =~= start + groups_under(nodes@, id, depth as nat));
}

/// The ids without those that already stand before them.
pub open spec fn once_each(ids: Seq<u128>) -> Seq<u128>
    decreases ids.len(),
{
    if ids.len() == 0 {
        Seq::empty()
    } else {
        let before = once_each(ids.drop_last());
        if before.contains(ids.last()) {
            before
        } else {
            before.push(ids.last())
        }
    }
}

fn keep_once(ids: &Vec<u128>) -> (r: Vec<u128>)
    ensures
        r@ == once_each(ids@),
{
    let mut out: Vec<u128> = Vec::new();
    let mut i: usize = 0;
    assert(ids@.take(0) =~= Seq::<u128>::empty());
    while i < ids.len()
        invariant
            i <= ids.len(),
            out@ == once_each(ids@.take(i as int)),
        decreases ids.len() - i,
    {
        proof {
            assert(ids@.take(i + 1).drop_last() =~= ids@.take(i as int));
            assert(ids@.take(i + 1).last() == ids@[i as int]);
        }
        if !holds(&out, ids[i]) {
            out.push(ids[i]);
        }
        i += 1;
    }
    assert(ids@.take(ids@.len() as int) =~= ids@);
    out
}

/// The groups that are taken apart, each once and in this order: nested groups before
/// the groups that hold them. Groups must not hold themselves.
pub fn flatten_group(nodes: &Vec<Node>, selection: &Vec<u128>, names: &Vec<String>) -> (r: Result<
    Vec<u128>,
    String,
>)
    requires
        forall|id: u128| #[trigger] is_nested_within(nodes@, id, nodes@.len()),
    ensures
        ({
            let ids = targets(nodes@, selection@, texts(names@));
            let groups = groups_under_all(nodes@, ids, nodes@.len(), ids.len());
            match r {
                Err(e) => if ids.len() == 0 {
                    e@ == "No nodes specified and nothing selected"@
                } else {
                    groups.len() == 0 && e@ == "No groups found to flatten"@
                },
                Ok(v) => groups.len() > 0 && v@ == once_each(groups),
            }
        }),
{
    let ids = resolve_targets(nodes, selection, names);
    if ids.len() == 0 {
        return Err("No nodes specified and nothing selected".to_owned());
    }
    let depth: usize = nodes.len();
    let mut out: Vec<u128> = Vec::new();
    let mut i: usize = 0;
    while i < ids.len()
        invariant
            i <= ids.len(),
            depth == nodes@.len(),
            forall|id: u128| #[trigger] is_nested_within(nodes@, id, nodes@.len()),
            out@ == groups_under_all(nodes@, ids@, depth as nat, i as nat),
        decreases ids.len() - i,
    {
        assert(is_nested_within(nodes@, ids@[i as int], nodes@.len()));
        collect_groups(nodes, ids[i], depth, &mut out);
        i += 1;
    }
    if out.len() == 0 {
        Err("No groups found to flatten".to_owned())
    } else {
        Ok(keep_once(&out))
    }
}

/// Only groups are taken apart, and a group comes behind everything that is found
/// under it.
pub proof fn law_groups_come_last(nodes: Seq<Node>, id: u128, depth: nat)
    requires
        has_node(nodes, id),
        nodes[position_of(nodes, id)].kind == NodeKind::Group,
        depth > 0,
    ensures
        groups_under(nodes, id, depth).len() > 0,
        groups_under(nodes, id, depth).last() == id,
        forall|i: int|
            0 <= i < groups_under(nodes, id, depth).len() ==> is_group(
                nodes,
                #[trigger] groups_under(nodes, id, depth)[i],
            ),
{
    lemma_all_groups(nodes, id, depth);
}

pub open spec fn is_group(nodes: Seq<Node>, id: u128) -> bool {
    has_node(nodes, id) && nodes[position_of(nodes, id)].kind == NodeKind::Group
}

proof fn lemma_all_groups(nodes: Seq<Node>, id: u128, depth: nat)
    ensures
        forall|i: int|
            0 <= i < groups_under(nodes, id, depth).len() ==> is_group(
                nodes,
                #[trigger] groups_under(nodes, id, depth)[i],
            ),
    decreases depth, 1nat, 0nat,
{
    let node = nodes[position_of(nodes, id)];
    if has_node(nodes, id) && node.kind == NodeKind::Group && depth > 0 {
        let d = (depth - 1) as nat;
        let n = node.children@.len();
        lemma_all_groups_of(nodes, node.children@, d, n);
        let inner = groups_under_all(nodes, node.children@, d, n);
        let all = groups_under(nodes, id, depth);
        assert(all == inner.push(id));
        assert forall|i: int| 0 <= i < all.len() implies is_group(nodes, #[trigger] all[i]) by {
            if i < inner.len() {
                assert(all[i] == inner[i]);
            }
        }
    }
}

proof fn lemma_all_groups_of(nodes: Seq<Node>, ids: Seq<u128>, depth: nat, n: nat)
    ensures
        forall|i: int|
            0 <= i < groups_under_all(nodes, ids, depth, n).len() ==> is_group(
                nodes,
                #[trigger] groups_under_all(nodes, ids, depth, n)[i],
            ),
    decreases depth, 2nat, n,
{
    if n > 0 {
        lemma_all_groups_of(nodes, ids, depth, (n - 1) as nat);
        lemma_all_groups(nodes, ids[n - 1], depth);
        let before = groups_under_all(nodes, ids, depth, (n - 1) as nat);
        let last = groups_under(nodes, ids[n - 1], depth);
        let all = groups_under_all(nodes, ids, depth, n);
        assert(all == before + last);
        assert forall|i: int| 0 <= i < all.len() implies is_group(nodes, #[trigger] all[i]) by {
            if i < before.len() {
                assert(all[i] == before[i]);
            } else {
                assert(all[i] == last[i - before.len()]);
            }
        }
    }
}

/// Every group among the children of a group that is listed stands before it.
pub open spec fn holders_follow(nodes: Seq<Node>, ids: Seq<u128>) -> bool {
    forall|i: int, c: u128|
        0 <= i < ids.len() && #[trigger] is_group(nodes, c) && children_of_id(
            nodes,
            #[trigger] ids[i],
        ).contains(c) ==> ids.take(i).contains(c)
}

pub open spec fn children_of_id(nodes: Seq<Node>, id: u128) -> Seq<u128> {
    nodes[position_of(nodes, id)].children@
}

proof fn lemma_follow_append(nodes: Seq<Node>, a: Seq<u128>, b: Seq<u128>)
    requires
        holders_follow(nodes, a),
        holders_follow(nodes, b),
    ensures
        holders_follow(nodes, a + b),
{
    let all = a + b;
    assert forall|i: int, c: u128|
        0 <= i < all.len() && #[trigger] is_group(nodes, c) && children_of_id(
            nodes,
            #[trigger] all[i],
        ).contains(c) implies all.take(i).contains(c) by {
        if i < a.len() {
            assert(all[i] == a[i]);
            assert(all.take(i) =~= a.take(i));
        } else {
            let j = i - a.len();
            assert(all[i] == b[j]);
            assert(b.take(j).contains(c));
            let k = choose|k: int| 0 <= k < j && b.take(j)[k] == c;
            assert(all.take(i)[a.len() + k] == c);
        }
    }
}

proof fn lemma_groups_follow(nodes: Seq<Node>, id: u128, depth: nat)
    requires
        is_nested_within(nodes, id, depth),
    ensures
        holders_follow(nodes, groups_under(nodes, id, depth)),
        is_group(nodes, id) ==> groups_under(nodes, id, depth).contains(id),
    decreases depth, 1nat, 0nat,
{
    let node = nodes[position_of(nodes, id)];
    if is_group(nodes, id) {
        let d = (depth - 1) as nat;
        let n = node.children@.len();
        lemma_all_groups_follow(nodes, node.children@, d, n);
        let inner = groups_under_all(nodes, node.children@, d, n);
        let all = groups_under(nodes, id, depth);
        assert(all == inner.push(id));
        assert(all.last() == id);
        assert(all[all.len() - 1] == id);
        assert forall|i: int, c: u128|
            0 <= i < all.len() && #[trigger] is_group(nodes, c) && children_of_id(
                nodes,
                #[trigger] all[i],
            ).contains(c) implies all.take(i).contains(c) by {
            if i < inner.len() {
                assert(all[i] == inner[i]);
                assert(all.take(i) =~= inner.take(i));
            } else {
                assert(all.take(i) =~= inner);
                let k = choose|k: int| 0 <= k < n && node.children@[k] == c;
                assert(is_group(nodes, node.children@[k]));
            }
        }
    }
}

proof fn lemma_all_groups_follow(nodes: Seq<Node>, ids: Seq<u128>, depth: nat, n: nat)
    requires
        n <= ids.len(),
        forall|i: int| 0 <= i < n ==> is_nested_within(nodes, #[trigger] ids[i], depth),
    ensures
        holders_follow(nodes, groups_under_all(nodes, ids, depth, n)),
        forall|k: int|
            0 <= k < n && is_group(nodes, #[trigger] ids[k]) ==> groups_under_all(
                nodes,
                ids,
                depth,
                n,
            ).contains(ids[k]),
    decreases depth, 2nat, n,
{
    if n > 0 {
        let m = (n - 1) as nat;
        lemma_all_groups_follow(nodes, ids, depth, m);
        assert(is_nested_within(nodes, ids[n - 1], depth));
        lemma_groups_follow(nodes, ids[n - 1], depth);
        let before = groups_under_all(nodes, ids, depth, m);
        let last = groups_under(nodes, ids[n - 1], depth);
        lemma_follow_append(nodes, before, last);
        let all = before + last;
        assert forall|k: int| 0 <= k < n && is_group(nodes, #[trigger] ids[k]) implies all.contains(
            ids[k],
        ) by {
            if k < m {
                let j = choose|j: int| 0 <= j < before.len() && before[j] == ids[k];
                assert(all[j] == ids[k]);
            } else {
                let j = choose|j: int| 0 <= j < last.len() && last[j] == ids[k];
                assert(all[before.len() + j] == ids[k]);
            }
        }
    }
}

proof fn lemma_once_each(nodes: Seq<Node>, ids: Seq<u128>)
    requires
        holders_follow(nodes, ids),
    ensures
        holders_follow(nodes, once_each(ids)),
        once_each(ids).no_duplicates(),
        forall|id: u128| ids.contains(id) <==> #[trigger] once_each(ids).contains(id),
    decreases ids.len(),
{
    if ids.len() > 0 {
        let rest = ids.drop_last();
        let x = ids.last();
        assert forall|i: int, c: u128|
            0 <= i < rest.len() && #[trigger] is_group(nodes, c) && children_of_id(
                nodes,
                #[trigger] rest[i],
            ).contains(c) implies rest.take(i).contains(c) by {
            assert(rest[i] == ids[i]);
            assert(rest.take(i) =~= ids.take(i));
        }
        lemma_once_each(nodes, rest);
        let before = once_each(rest);
        let all = once_each(ids);
        assert(ids[ids.len() - 1] == x);
        assert(ids.take(ids.len() - 1) =~= rest);
        assert forall|id: u128| ids.contains(id) <==> #[trigger] all.contains(id) by {
            if ids.contains(id) {
                let k = choose|k: int| 0 <= k < ids.len() && ids[k] == id;
                if k < rest.len() {
                    assert(rest[k] == id);
                    assert(before.contains(id));
                }
                if id != x {
                    let j = choose|j: int| 0 <= j < before.len() && before[j] == id;
                    assert(all[j] == id);
                } else if !before.contains(x) {
                    assert(all[before.len() as int] == x);
                }
            }
            if all.contains(id) {
                let k = choose|k: int| 0 <= k < all.len() && all[k] == id;
                if k < before.len() {
                    assert(before[k] == id);
                    assert(before.contains(id));
                    assert(rest.contains(id));
                    let j = choose|j: int| 0 <= j < rest.len() && rest[j] == id;
                    assert(ids[j] == id);
                }
            }
        }
        if !before.contains(x) {
            assert forall|i: int, c: u128|
                0 <= i < all.len() && #[trigger] is_group(nodes, c) && children_of_id(
                    nodes,
                    #[trigger] all[i],
                ).contains(c) implies all.take(i).contains(c) by {
                if i < before.len() {
                    assert(all[i] == before[i]);
                    assert(all.take(i) =~= before.take(i));
                } else {
                    assert(all.take(i) =~= before);
                    assert(rest.contains(c));
                }
            }
        }
    }
}

/// Each group that is taken apart is taken apart once, and behind every group that it
/// holds. The groups that are named are among them.
pub proof fn law_nested_groups_come_first(nodes: Seq<Node>, ids: Seq<u128>)
    requires
        forall|id: u128| #[trigger] is_nested_within(nodes, id, nodes.len()),
    ensures
        ({
            let groups = once_each(groups_under_all(nodes, ids, nodes.len(), ids.len()));
            &&& groups.no_duplicates()
            &&& holders_follow(nodes, groups)
            &&& forall|k: int|
                0 <= k < ids.len() && is_group(nodes, #[trigger] ids[k]) ==> groups.contains(ids[k])
        }),
{
    lemma_all_groups_follow(nodes, ids, nodes.len(), ids.len());
    lemma_once_each(nodes, groups_under_all(nodes, ids, nodes.len(), ids.len()));
}


/// The line of a reflection lies in the middle of the box of the node, as far from the one
/// edge as from the other: reflecting at it exchanges the left and the right edge, or the
/// top and the bottom one.
pub proof fn law_reflection_exchanges_edges(
    nodes: Seq<Node>,
    positions: Seq<usize>,
    q: TransformRequest,
    i: int,
    j: nat,
)
    requires
        0 <= i < positions.len(),
        nodes[positions[i] as int].bounds matches Some(b) && is_plain(b.x0, j) && is_plain(
            b.x1,
            j,
        ) && is_plain(b.y0, j) && is_plain(b.y1, j),
    ensures
        ({
            let b = nodes[positions[i] as int].bounds->0;
            let t = transform_steps(nodes, positions, q)[i];
            &&& t.position == positions[i]
            &&& q.operation == TransformOperation::ReflectHorizontal ==> (t.transform
                matches NodeTransform::ReflectHorizontal(x) && 2 * exact(x) - exact(b.x0) == exact(
                b.x1,
            ) && 2 * exact(x) - exact(b.x1) == exact(b.x0))
            &&& q.operation == TransformOperation::ReflectVertical ==> (t.transform
                matches NodeTransform::ReflectVertical(y) && 2 * exact(y) - exact(b.y0) == exact(
                b.y1,
            ) && 2 * exact(y) - exact(b.y1) == exact(b.y0))
        }),
{
    let b = nodes[positions[i] as int].bounds->0;
    lemma_middle(b.x0, b.x1, j);
    lemma_middle(b.y0, b.y1, j);
}

pub proof fn lemma_middle(from: Double, to: Double, j: nat)
    requires
        is_plain(from, j),
        is_plain(to, j),
    ensures
        middle(from, to).wf(),
        2 * exact(middle(from, to)) == exact(from) + exact(to),
{
    let p = power(2, j);
    let k = (j - 1) as nat;
    let h = power(2, k);
    assert(p == 2 * h);
    let m = steps(from, j);
    let n = steps(to, j);
    lemma_difference_of_steps(to, from, j, n, m);
    lemma_finer(f_sub(to, from), j, n - m);
    lemma_half_of_steps(f_sub(to, from), k, n - m);
    lemma_finer(from, j, m);
    lemma_sum_of_steps(from, half(f_sub(to, from)), k, 2 * m, n - m);
    assert(2 * ((2 * m + (n - m)) * h) == m * p + n * p) by (nonlinear_arith)
        requires
            p == 2 * h,
    ;
}

/// The line of a reflection depends on nothing but the two edges that it stands between.
pub proof fn law_reflection_line_depends_on_its_edges(a: Node, b: Node, q: TransformRequest)
    requires
        a.bounds is Some,
        b.bounds is Some,
    ensures
        q.operation == TransformOperation::ReflectHorizontal && a.bounds->0.x0 == b.bounds->0.x0
            && a.bounds->0.x1 == b.bounds->0.x1 ==> node_transform(a, q) == node_transform(b, q),
        q.operation == TransformOperation::ReflectVertical && a.bounds->0.y0 == b.bounds->0.y0
            && a.bounds->0.y1 == b.bounds->0.y1 ==> node_transform(a, q) == node_transform(b, q),
{
}

/// Whatever else is asked for is done as it is asked for, and to every node alike: with the
/// parameter of the operation, and with no other one.
pub proof fn law_parameters_are_handed_on(node: Node, q: TransformRequest)
    requires
        missing_parameter(q) is None,
    ensures
        match node_transform(node, q) {
            NodeTransform::Translate(t) => q.operation == TransformOperation::Translate
                && q.translate == Some(t),
            NodeTransform::Rotate(t) => q.operation == TransformOperation::Rotate && q.rotate
                == Some(t),
            NodeTransform::Scale(t) => q.operation == TransformOperation::Scale && q.scale
                == Some(t),
            NodeTransform::Shear(t) => q.operation == TransformOperation::Shear && q.shear
                == Some(t),
            NodeTransform::Matrix(t) => q.operation == TransformOperation::Matrix && q.matrix
                == Some(t),
            NodeTransform::ReflectHorizontal(x) => q.operation
                == TransformOperation::ReflectHorizontal,
            NodeTransform::ReflectVertical(y) => q.operation
                == TransformOperation::ReflectVertical,
        },
{
}

/// Every parameter that an operation needs is asked for: without it nothing is done.
pub proof fn law_operations_need_their_parameters(
    nodes: Seq<Node>,
    geometry: Seq<Geometry>,
    ids: Seq<u128>,
    q: TransformRequest,
)
    ensures
        q.operation == TransformOperation::Translate && q.translate is None ==> transform_error(
            nodes,
            geometry,
            ids,
            q,
        ) is Some,
        q.operation == TransformOperation::Rotate && q.rotate is None ==> transform_error(
            nodes,
            geometry,
            ids,
            q,
        ) is Some,
        q.operation == TransformOperation::Scale && q.scale is None ==> transform_error(
            nodes,
            geometry,
            ids,
            q,
        ) is Some,
        q.operation == TransformOperation::Shear && q.shear is None ==> transform_error(
            nodes,
            geometry,
            ids,
            q,
        ) is Some,
        q.operation == TransformOperation::Matrix && q.matrix is None ==> transform_error(
            nodes,
            geometry,
            ids,
            q,
        ) is Some,
        q.matrix matches Some(m) && !(m.a.wf() && m.b.wf() && m.c.wf() && m.d.wf() && m.e.wf()
            && m.f.wf()) ==> transform_error(nodes, geometry, ids, q) is Some,
{
}


/// Flipping a path exchanges the edges of its box: a point at the left edge goes to the right
/// one and the other way round, or from the top to the bottom, and what is not flipped stays.
/// A point is as far from the one edge as its image is from the other.
pub proof fn law_flip_exchanges_edges(
    node: Node,
    path: Seq<PathEl>,
    horizontal: bool,
    vertical: bool,
    p: Point,
    j: nat,
)
    requires
        node.bounds matches Some(b) && is_plain(b.x0, j) && is_plain(b.x1, j) && is_plain(b.y0, j)
            && is_plain(b.y1, j),
        is_plain(p.x, j),
        is_plain(p.y, j),
    ensures
        ({
            let b = node.bounds->0;
            let q = flipped_point(path_box(node), horizontal, vertical, p);
            &&& horizontal ==> exact(p.x) - exact(b.x0) == exact(b.x1) - exact(q.x)
            &&& !horizontal ==> q.x == p.x
            &&& vertical ==> exact(p.y) - exact(b.y0) == exact(b.y1) - exact(q.y)
            &&& !vertical ==> q.y == p.y
        }),
{
    let b = node.bounds->0;
    lemma_flipped(b.x0, b.x1, p.x, j);
    lemma_flipped(b.y0, b.y1, p.y, j);
}

proof fn lemma_flipped(from: Double, to: Double, p: Double, j: nat)
    requires
        is_plain(from, j),
        is_plain(to, j),
        is_plain(p, j),
    ensures
        exact(f_sub(f_mul(whole(2), middle(from, to)), p)) == exact(from) + exact(to) - exact(p),
{
    let h = (j - 1) as nat;
    lemma_plain(from, j);
    lemma_plain(to, j);
    lemma_plain(p, j);
    lemma_sub(to, from, j, 0x4000_0000, 0x4000_0000);
    lemma_half(f_sub(to, from), j, 0x8000_0000);
    lemma_add(from, half(f_sub(to, from)), h, 0x8000_0000, 0x8000_0000);
    lemma_times(2, middle(from, to), h, 0x1_0000_0000);
    lemma_sub(f_mul(whole(2), middle(from, to)), p, h, 0x2_0000_0000, 0x8000_0000);
}

/// Flipping what is no path turns round the direction across, or the one down, of its matrix
/// and leaves its place.
pub proof fn law_flipped_matrix_keeps_its_place(m: Affine, horizontal: bool, vertical: bool)
    requires
        all_finite(m),
    ensures
        ({
            let r = flipped_matrix(m, horizontal, vertical);
            &&& r.e == m.e && r.f == m.f
            &&& r.a == (if horizontal {
                f_neg(m.a)
            } else {
                m.a
            })
            &&& r.c == (if horizontal {
                f_neg(m.c)
            } else {
                m.c
            })
            &&& r.b == (if vertical {
                f_neg(m.b)
            } else {
                m.b
            })
            &&& r.d == (if vertical {
                f_neg(m.d)
            } else {
                m.d
            })
        }),
{
    let minus_one = (Double { bits: MINUS_ONE });
    lemma_opposite(m.a, minus_one);
    lemma_opposite(m.b, minus_one);
    lemma_opposite(m.c, minus_one);
    lemma_opposite(m.d, minus_one);
}

} // verus!
