//! Blending one path into another, the spines of blend groups, and the colours of
//! symbol instances.
use crate::bezier::{Affine, PathEl, Point};
use crate::double::Double;
use crate::float::{
    absolute, at_most, divided, f_abs, f_add, f_at_most, f_div, f_max, f_mul, f_narrow, f_neg,
    f_sqrt, f_sub, from_count, lemma_positive, lemma_self_difference, maximum, minus, narrowed,
    plus, raised, raised_count, square_root, times, whole,
};
use crate::layouts::Place;
use crate::recolor::{exchanged, TOP_BYTE};
use crate::scene::{
    count_text, counted, find_node, has_node, named_id, position_of, resolve_node_id, Color, Fill,
    Node, NodeKind, SymbolOverrides,
};
use crate::steps::{
    lemma_neg, lemma_nothing_times, lemma_plus_nothing, lemma_sum_commutes, lemma_times_one,
};
use crate::text::{
    chars_of, decimal_text, joined, number_text, option_text, push_all, push_str, text_of,
};
use crate::typography::{is_target, quoted_name, quoted_text, target};
use vstd::prelude::*;

verus! {

/// How many steps a blend has: so many, as many as a spacing gives, or as many as
/// the colours need.
#[derive(Debug, Clone, Copy, PartialEq, Eq, Structural)]
pub struct BlendArgs {
    pub steps: Option<usize>,
    pub spacing: Option<Double>,
    pub smooth_color: bool,
}

#[derive(Debug, Clone, Copy, PartialEq, Eq, Structural)]
pub enum StepMode {
    Spacing,
    SmoothColor,
    Steps,
}

#[derive(Debug)]
pub struct BlendPlan {
    pub a: usize,
    pub b: usize,
    pub steps: usize,
    pub mode: StepMode,
    /// The layer of the steps.
    pub layer: u128,
    /// How many entries this adds to the history.
    pub entries: usize,
    pub message: String,
}

/// Why two nodes are not blended. `elements` are the numbers of elements of the two
/// paths.
pub open spec fn blend_error(
    nodes: Seq<Node>,
    a: Seq<char>,
    b: Seq<char>,
    elements: (nat, nat),
    args: BlendArgs,
) -> Option<Seq<char>> {
    if named_id(nodes, a) is None {
        Some("Node A not found: "@ + a)
    } else if named_id(nodes, b) is None {
        Some("Node B not found: "@ + b)
    } else if !is_target(nodes, a) || !is_target(nodes, b) {
        Some("One or both nodes not found"@)
    } else if nodes[target(nodes, a)].kind != NodeKind::Path || nodes[target(nodes, b)].kind
        != NodeKind::Path {
        Some("Both nodes must be paths"@)
    } else if elements.0 != elements.1 {
        Some(
            "Path element counts differ ("@ + decimal_text(elements.0) + " vs "@ + decimal_text(
                elements.1,
            )
                + "). Both paths must have the same number of elements for blending. Use add_anchor_points to equalize."@,
        )
    } else if args.spacing matches Some(s) && f_at_most(s, Double { bits: 0 }) {
        Some("spacing must be positive"@)
    } else {
        None
    }
}

/// The colour of a solid fill.
pub open spec fn solid_color(node: Node) -> Option<Color> {
    match node.fill {
        Fill::Solid(c) => Some(c),
        _ => None,
    }
}

pub open spec fn one_at_least(n: nat) -> nat {
    if n == 0 {
        1
    } else {
        n
    }
}

/// How far a channel goes, in bytes.
pub open spec fn channel_gap(a: Double, b: Double) -> Double {
    f_narrow(f_mul(f_abs(f_narrow(f_sub(b, a))), Double { bits: TOP_BYTE }))
}

/// The number of steps between two nodes.
pub open spec fn step_count(a: Node, b: Node, args: BlendArgs) -> nat {
    let given = match args.steps {
        Some(n) => one_at_least(n as nat),
        None => 5,
    };
    match args.spacing {
        Some(s) => {
            let dx = f_sub(b.transform.e, a.transform.e);
            let dy = f_sub(b.transform.f, a.transform.f);
            let dist = f_sqrt(f_add(f_mul(dx, dx), f_mul(dy, dy)));
            let n = raised(f_div(dist, s), usize::MAX as nat);
            one_at_least(
                if n > 0 {
                    (n - 1) as nat
                } else {
                    0
                },
            )
        },
        None => if args.smooth_color {
            match (solid_color(a), solid_color(b)) {
                (Some(c), Some(d)) => one_at_least(
                    raised(
                        f_max(
                            f_max(channel_gap(c.r, d.r), channel_gap(c.g, d.g)),
                            channel_gap(c.b, d.b),
                        ),
                        usize::MAX as nat,
                    ),
                ),
                _ => given,
            }
        } else {
            given
        },
    }
}

pub open spec fn step_mode(args: BlendArgs) -> StepMode {
    if args.spacing is Some {
        StepMode::Spacing
    } else if args.smooth_color {
        StepMode::SmoothColor
    } else {
        StepMode::Steps
    }
}

pub open spec fn mode_name(m: StepMode) -> Seq<char> {
    match m {
        StepMode::Spacing => "spacing"@,
        StepMode::SmoothColor => "smooth_color"@,
        StepMode::Steps => "steps"@,
    }
}

fn find_solid(node: &Node) -> (r: Option<Color>)
    ensures
        r == solid_color(*node),
{
    match &node.fill {
        Fill::Solid(c) => Some(*c),
        _ => None,
    }
}

fn gap_of(a: Double, b: Double) -> (r: Double)
    ensures
        r == channel_gap(a, b),
{
    narrowed(times(absolute(narrowed(minus(b, a))), Double { bits: TOP_BYTE }))
}

fn count_steps(a: &Node, b: &Node, args: &BlendArgs) -> (r: usize)
    requires
        !(args.spacing matches Some(s) && f_at_most(s, Double { bits: 0 })),
    ensures
        r == step_count(*a, *b, *args),
{
    let given: usize = match args.steps {
        Some(n) => if n == 0 {
            1
        } else {
            n
        },
        None => 5,
    };
    if let Some(s) = args.spacing {
        let dx = minus(b.transform.e, a.transform.e);
        let dy = minus(b.transform.f, a.transform.f);
        let dist = square_root(plus(times(dx, dx), times(dy, dy)));
        let n: usize = raised_count(divided(dist, s), usize::MAX as u64) as usize;
        return if n > 1 {
            n - 1
        } else {
            1
        };
    }
    if args.smooth_color {
        if let Some(c) = find_solid(a) {
            if let Some(d) = find_solid(b) {
                let top = maximum(
                    maximum(gap_of(c.r, d.r), gap_of(c.g, d.g)),
                    gap_of(c.b, d.b),
                );
                let n: usize = raised_count(top, usize::MAX as u64) as usize;
                return if n == 0 {
                    1
                } else {
                    n
                };
            }
        }
    }
    given
}

/// Blends one path into another. `elements` are the numbers of elements of the two
/// paths.
pub fn blend_objects(
    nodes: &Vec<Node>,
    a: &str,
    b: &str,
    elements: (usize, usize),
    args: &BlendArgs,
) -> (r: Result<BlendPlan, String>)
    ensures
        ({
            let error = blend_error(
                nodes@,
                a@,
                b@,
                (elements.0 as nat, elements.1 as nat),
                *args,
            );
            match r {
                Err(e) => error == Some(e@),
                Ok(p) => {
                    let from = nodes@[target(nodes@, a@)];
                    let to = nodes@[target(nodes@, b@)];
                    &&& error is None
                    &&& p.a == target(nodes@, a@)
                    &&& p.b == target(nodes@, b@)
                    &&& p.steps == step_count(from, to, *args)
                    &&& p.mode == step_mode(*args)
                    &&& p.layer == from.layer
                    &&& p.entries == p.steps
                    &&& p.message@ == "Created "@ + decimal_text(p.steps as nat)
                        + " blend steps between '"@ + from.name@ + "' and '"@ + to.name@
                        + "' (mode: "@ + mode_name(p.mode) + ")"@
                },
            }
        }),
{
    let id_a: u128 = match resolve_node_id(nodes, a) {
        None => {
            return Err(joined("Node A not found: ", a));
        },
        Some(id) => id,
    };
    let id_b: u128 = match resolve_node_id(nodes, b) {
        None => {
            return Err(joined("Node B not found: ", b));
        },
        Some(id) => id,
    };
    let ka: usize = match find_node(nodes, id_a) {
        None => {
            return Err("One or both nodes not found".to_owned());
        },
        Some(k) => k,
    };
    let kb: usize = match find_node(nodes, id_b) {
        None => {
            return Err("One or both nodes not found".to_owned());
        },
        Some(k) => k,
    };
    let from = &nodes[ka];
    let to = &nodes[kb];
    if from.kind != NodeKind::Path || to.kind != NodeKind::Path {
        return Err("Both nodes must be paths".to_owned());
    }
    if elements.0 != elements.1 {
        let mut v = chars_of("Path element counts differ (");
        push_all(&mut v, &number_text(elements.0 as u64));
        push_str(&mut v, " vs ");
        push_all(&mut v, &number_text(elements.1 as u64));
        push_str(
            &mut v,
            "). Both paths must have the same number of elements for blending. Use add_anchor_points to equalize.",
        );
        return Err(text_of(&v));
    }
    if let Some(s) = args.spacing {
        if at_most(s, Double { bits: 0 }) {
            return Err("spacing must be positive".to_owned());
        }
    }
    let steps: usize = count_steps(from, to, args);
    let mode = if args.spacing.is_some() {
        StepMode::Spacing
    } else if args.smooth_color {
        StepMode::SmoothColor
    } else {
        StepMode::Steps
    };
    let label = match mode {
        StepMode::Spacing => "spacing",
        StepMode::SmoothColor => "smooth_color",
        StepMode::Steps => "steps",
    };
    let mut v = chars_of("Created ");
    push_all(&mut v, &number_text(steps as u64));
    push_str(&mut v, " blend steps between '");
    push_str(&mut v, from.name.as_str());
    push_str(&mut v, "' and '");
    push_str(&mut v, to.name.as_str());
    push_str(&mut v, "' (mode: ");
    push_str(&mut v, label);
    push_str(&mut v, ")");
    Ok(
        BlendPlan {
            a: ka,
            b: kb,
            steps,
            mode,
            layer: from.layer,
            entries: steps,
            message: text_of(&v),
        },
    )
}

/// One step of a blend.
#[derive(Debug)]
pub struct BlendStep {
    pub name: String,
    pub path: Vec<PathEl>,
    /// The colour of the fill, where both nodes have a solid one.
    pub color: Option<Color>,
    pub opacity: Double,
    pub tx: Double,
    pub ty: Double,
}

/// The share of step `i` of `steps`.
pub open spec fn step_share(i: nat, steps: nat) -> Double {
    f_div(whole(i), whole(steps + 1))
}

pub open spec fn number_at(a: Double, b: Double, t: Double) -> Double {
    f_add(a, f_mul(f_sub(b, a), t))
}

pub open spec fn point_at(a: Point, b: Point, t: Double) -> Point {
    Point { x: number_at(a.x, b.x, t), y: number_at(a.y, b.y, t) }
}

/// An element between two of the same kind; the first one where the kinds differ.
pub open spec fn element_at(a: PathEl, b: PathEl, t: Double) -> PathEl {
    match (a, b) {
        (PathEl::MoveTo(p), PathEl::MoveTo(q)) => PathEl::MoveTo(point_at(p, q, t)),
        (PathEl::LineTo(p), PathEl::LineTo(q)) => PathEl::LineTo(point_at(p, q, t)),
        (PathEl::QuadTo(p, p2), PathEl::QuadTo(q, q2)) => PathEl::QuadTo(
            point_at(p, q, t),
            point_at(p2, q2, t),
        ),
        (PathEl::CurveTo(p, p2, p3), PathEl::CurveTo(q, q2, q3)) => PathEl::CurveTo(
            point_at(p, q, t),
            point_at(p2, q2, t),
            point_at(p3, q3, t),
        ),
        _ => a,
    }
}

/// A channel of the binary32 format between two others.
pub open spec fn channel_at(a: Double, b: Double, t: Double) -> Double {
    f_narrow(f_add(a, f_narrow(f_mul(f_narrow(f_sub(b, a)), f_narrow(t)))))
}

pub open spec fn color_at(a: Color, b: Color, t: Double) -> Color {
    Color {
        r: channel_at(a.r, b.r, t),
        g: channel_at(a.g, b.g, t),
        b: channel_at(a.b, b.b, t),
        a: channel_at(a.a, b.a, t),
    }
}

fn find_number(a: Double, b: Double, t: Double) -> (r: Double)
    ensures
        r == number_at(a, b, t),
{
    plus(a, times(minus(b, a), t))
}

fn find_point(a: Point, b: Point, t: Double) -> (r: Point)
    ensures
        r == point_at(a, b, t),
{
    Point { x: find_number(a.x, b.x, t), y: find_number(a.y, b.y, t) }
}

fn find_channel(a: Double, b: Double, t: Double) -> (r: Double)
    ensures
        r == channel_at(a, b, t),
{
    narrowed(plus(a, narrowed(times(narrowed(minus(b, a)), narrowed(t)))))
}

fn find_element(a: PathEl, b: PathEl, t: Double) -> (r: PathEl)
    ensures
        r == element_at(a, b, t),
{
    match (a, b) {
        (PathEl::MoveTo(p), PathEl::MoveTo(q)) => PathEl::MoveTo(find_point(p, q, t)),
        (PathEl::LineTo(p), PathEl::LineTo(q)) => PathEl::LineTo(find_point(p, q, t)),
        (PathEl::QuadTo(p, p2), PathEl::QuadTo(q, q2)) => PathEl::QuadTo(
            find_point(p, q, t),
            find_point(p2, q2, t),
        ),
        (PathEl::CurveTo(p, p2, p3), PathEl::CurveTo(q, q2, q3)) => PathEl::CurveTo(
            find_point(p, q, t),
            find_point(p2, q2, t),
            find_point(p3, q3, t),
        ),
        _ => a,
    }
}

/// Step `i` of a blend of `a` into `b`.
pub fn blend_step(
    a: &Node,
    b: &Node,
    path_a: &Vec<PathEl>,
    path_b: &Vec<PathEl>,
    i: usize,
    steps: usize,
) -> (r: BlendStep)
    requires
        path_a.len() == path_b.len(),
        steps < usize::MAX,
    ensures
        ({
            let t = step_share(i as nat, steps as nat);
            &&& r.name@ == "Blend "@ + decimal_text(i as nat) + "/"@ + decimal_text(steps as nat)
            &&& r.path@ == Seq::new(
                path_a@.len(),
                |j: int| element_at(path_a@[j], path_b@[j], t),
            )
            &&& r.color == match (solid_color(*a), solid_color(*b)) {
                (Some(c), Some(d)) => Some(color_at(c, d, t)),
                _ => None,
            }
            &&& r.opacity == channel_at(a.opacity, b.opacity, t)
            &&& r.tx == number_at(a.transform.e, b.transform.e, t)
            &&& r.ty == number_at(a.transform.f, b.transform.f, t)
        }),
{
    proof {
        lemma_positive((steps + 1) as nat);
    }
    let t = divided(from_count(i as u64), from_count((steps + 1) as u64));
    let ghost goal = Seq::new(path_a@.len(), |j: int| element_at(path_a@[j], path_b@[j], t));
    let mut path: Vec<PathEl> = Vec::new();
    let mut j: usize = 0;
    while j < path_a.len()
        invariant
            j <= path_a.len(),
            path_a.len() == path_b.len(),
            goal == Seq::new(path_a@.len(), |j: int| element_at(path_a@[j], path_b@[j], t)),
            path@ == goal.take(j as int),
        decreases path_a.len() - j,
    {
        path.push(find_element(path_a[j], path_b[j], t));
        j += 1;
        assert(path@ =~= goal.take(j as int));
    }
    assert(path@ =~= goal);
    let color = match (find_solid(a), find_solid(b)) {
        (Some(c), Some(d)) => Some(
            Color {
                r: find_channel(c.r, d.r, t),
                g: find_channel(c.g, d.g, t),
                b: find_channel(c.b, d.b, t),
                a: find_channel(c.a, d.a, t),
            },
        ),
        _ => None,
    };
    let mut v = chars_of("Blend ");
    push_all(&mut v, &number_text(i as u64));
    push_str(&mut v, "/");
    push_all(&mut v, &number_text(steps as u64));
    BlendStep {
        name: text_of(&v),
        path,
        color,
        opacity: find_channel(a.opacity, b.opacity, t),
        tx: find_number(a.transform.e, b.transform.e, t),
        ty: find_number(a.transform.f, b.transform.f, t),
    }
}

/// Why a name does not stand for a group.
pub open spec fn blend_group_error(nodes: Seq<Node>, name: Seq<char>) -> Option<Seq<char>> {
    if !is_target(nodes, name) {
        Some(quoted_name("Group"@, name, " not found."@))
    } else if nodes[target(nodes, name)].kind != NodeKind::Group {
        Some(quoted_name("Node"@, name, " is not a group."@))
    } else {
        None
    }
}

fn find_blend_group(nodes: &Vec<Node>, name: &str) -> (r: Result<usize, String>)
    ensures
        match r {
            Ok(k) => blend_group_error(nodes@, name@) is None && k == target(nodes@, name@) && k
                < nodes.len(),
            Err(e) => blend_group_error(nodes@, name@) == Some(e@),
        },
{
    let missing = quoted_text("Group", name, " not found.");
    match resolve_node_id(nodes, name) {
        None => Err(missing),
        Some(id) => match find_node(nodes, id) {
            None => Err(missing),
            Some(k) => if nodes[k].kind == NodeKind::Group {
                Ok(k)
            } else {
                Err(quoted_text("Node", name, " is not a group."))
            },
        },
    }
}

/// Why no spine is set. A name that stands for nothing at all is reported first.
pub open spec fn set_spine_error(nodes: Seq<Node>, group: Seq<char>, path: Seq<char>) -> Option<
    Seq<char>,
> {
    if named_id(nodes, group) is None {
        Some(quoted_name("Group"@, group, " not found."@))
    } else if named_id(nodes, path) is None {
        Some(quoted_name("Path"@, path, " not found."@))
    } else if blend_group_error(nodes, group) is Some {
        blend_group_error(nodes, group)
    } else if !is_target(nodes, path) {
        Some(quoted_name("Path"@, path, " not found."@))
    } else if nodes[target(nodes, path)].kind != NodeKind::Path {
        Some(quoted_name("Node"@, path, " is not a path node."@))
    } else {
        None
    }
}

/// A group and its spine.
#[derive(Debug)]
pub struct SpinePlan {
    pub group: usize,
    pub spine: Option<u128>,
    pub message: String,
}

/// Makes a path the spine of a group.
pub fn set_blend_spine(nodes: &Vec<Node>, group: &str, path: &str) -> (r: Result<
    SpinePlan,
    String,
>)
    ensures
        match r {
            Err(e) => set_spine_error(nodes@, group@, path@) == Some(e@),
            Ok(p) => {
                &&& set_spine_error(nodes@, group@, path@) is None
                &&& p.group == target(nodes@, group@)
                &&& p.spine == named_id(nodes@, path@)
                &&& p.message@ == quoted_name(
                    "Blend spine of group"@,
                    group@,
                    quoted_name(" set to path"@, path@, "."@),
                )
            },
        },
{
    if resolve_node_id(nodes, group).is_none() {
        return Err(quoted_text("Group", group, " not found."));
    }
    let id: u128 = match resolve_node_id(nodes, path) {
        None => {
            return Err(quoted_text("Path", path, " not found."));
        },
        Some(id) => id,
    };
    let k: usize = match find_blend_group(nodes, group) {
        Err(e) => {
            return Err(e);
        },
        Ok(k) => k,
    };
    match find_node(nodes, id) {
        None => {
            return Err(quoted_text("Path", path, " not found."));
        },
        Some(p) => {
            if nodes[p].kind != NodeKind::Path {
                return Err(quoted_text("Node", path, " is not a path node."));
            }
        },
    }
    let tail = quoted_text(" set to path", path, ".");
    Ok(
        SpinePlan {
            group: k,
            spine: Some(id),
            message: quoted_text("Blend spine of group", group, tail.as_str()),
        },
    )
}

/// Takes the spine off a group. There is no plan, only a note, where it has none.
pub fn clear_blend_spine(nodes: &Vec<Node>, group: &str) -> (r: Result<
    (Option<usize>, String),
    String,
>)
    ensures
        match r {
            Err(e) => blend_group_error(nodes@, group@) == Some(e@),
            Ok((k, m)) => {
                &&& blend_group_error(nodes@, group@) is None
                &&& if nodes@[target(nodes@, group@)].blend_spine is None {
                    k is None && m@ == quoted_name(
                        "Group"@,
                        group@,
                        " has no blend spine assigned."@,
                    )
                } else {
                    k == Some(target(nodes@, group@) as usize) && m@ == quoted_name(
                        "Blend spine cleared from group"@,
                        group@,
                        "."@,
                    )
                }
            },
        },
{
    match find_blend_group(nodes, group) {
        Err(e) => Err(e),
        Ok(k) => if nodes[k].blend_spine.is_none() {
            Ok((None, quoted_text("Group", group, " has no blend spine assigned.")))
        } else {
            Ok((Some(k), quoted_text("Blend spine cleared from group", group, ".")))
        },
    }
}

/// Why a spine is not reversed.
pub open spec fn reverse_spine_error(nodes: Seq<Node>, group: Seq<char>) -> Option<Seq<char>> {
    if blend_group_error(nodes, group) is Some {
        blend_group_error(nodes, group)
    } else {
        match nodes[target(nodes, group)].blend_spine {
            None => Some(quoted_name("Group"@, group, " has no blend spine assigned."@)),
            Some(id) => if !has_node(nodes, id) {
                Some("Blend spine node not found in document."@)
            } else if nodes[position_of(nodes, id)].kind != NodeKind::Path {
                Some("Blend spine node is not a path."@)
            } else {
                None
            },
        }
    }
}

/// The spine that is reversed.
pub fn reverse_blend_spine(nodes: &Vec<Node>, group: &str) -> (r: Result<(usize, String), String>)
    ensures
        match r {
            Err(e) => reverse_spine_error(nodes@, group@) == Some(e@),
            Ok((k, m)) => {
                &&& reverse_spine_error(nodes@, group@) is None
                &&& k == position_of(nodes@, nodes@[target(nodes@, group@)].blend_spine->0)
                &&& m@ == quoted_name("Blend spine of group"@, group@, " reversed."@)
            },
        },
{
    let k: usize = match find_blend_group(nodes, group) {
        Err(e) => {
            return Err(e);
        },
        Ok(k) => k,
    };
    match nodes[k].blend_spine {
        None => Err(quoted_text("Group", group, " has no blend spine assigned.")),
        Some(id) => match find_node(nodes, id) {
            None => Err("Blend spine node not found in document.".to_owned()),
            Some(s) => if nodes[s].kind != NodeKind::Path {
                Err("Blend spine node is not a path.".to_owned())
            } else {
                Ok((s, quoted_text("Blend spine of group", group, " reversed.")))
            },
        },
    }
}

/// A group that is expanded, with its place.
#[derive(Debug)]
pub struct ExpandPlan {
    pub group: usize,
    pub place: Place,
    pub message: String,
}

/// Why a blend group is not expanded. `place` is where the group stands.
pub open spec fn expand_error(nodes: Seq<Node>, group: Seq<char>, place: Option<Place>) -> Option<
    Seq<char>,
> {
    if blend_group_error(nodes, group) is Some {
        blend_group_error(nodes, group)
    } else if place is None {
        Some("Blend group has no layer position."@)
    } else {
        None
    }
}

/// Takes a blend group apart into its objects.
pub fn expand_blend(nodes: &Vec<Node>, group: &str, place: Option<Place>) -> (r: Result<
    ExpandPlan,
    String,
>)
    ensures
        match r {
            Err(e) => expand_error(nodes@, group@, place) == Some(e@),
            Ok(p) => {
                &&& expand_error(nodes@, group@, place) is None
                &&& p.group == target(nodes@, group@)
                &&& place == Some(p.place)
                &&& p.message@ == quoted_name(
                    "Expanded blend group"@,
                    group@,
                    counted(
                        " into "@,
                        nodes@[target(nodes@, group@)].children@.len(),
                        " individual object(s)."@,
                    ),
                )
            },
        },
{
    let k: usize = match find_blend_group(nodes, group) {
        Err(e) => {
            return Err(e);
        },
        Ok(k) => k,
    };
    match place {
        None => Err("Blend group has no layer position.".to_owned()),
        Some(p) => {
            let tail = count_text(" into ", nodes[k].children.len(), " individual object(s).");
            Ok(
                ExpandPlan {
                    group: k,
                    place: p,
                    message: quoted_text("Expanded blend group", group, tail.as_str()),
                },
            )
        },
    }
}

/// Why a name does not stand for an instance of a symbol.
pub open spec fn instance_error(nodes: Seq<Node>, name: Seq<char>) -> Option<Seq<char>> {
    if !is_target(nodes, name) {
        Some(quoted_name("Node"@, name, " not found."@))
    } else if nodes[target(nodes, name)].symbol is None {
        Some(quoted_name("Node"@, name, " is not a symbol instance."@))
    } else {
        None
    }
}

fn find_instance(nodes: &Vec<Node>, name: &str) -> (r: Result<usize, String>)
    ensures
        match r {
            Ok(k) => instance_error(nodes@, name@) is None && k == target(nodes@, name@) && k
                < nodes.len(),
            Err(e) => instance_error(nodes@, name@) == Some(e@),
        },
{
    let missing = quoted_text("Node", name, " not found.");
    match resolve_node_id(nodes, name) {
        None => Err(missing),
        Some(id) => match find_node(nodes, id) {
            None => Err(missing),
            Some(k) => if nodes[k].symbol.is_some() {
                Ok(k)
            } else {
                Err(quoted_text("Node", name, " is not a symbol instance."))
            },
        },
    }
}

/// The new value where one is given, or else the old one.
pub open spec fn override_of(new: Option<Seq<char>>, old: Option<Seq<char>>) -> Option<Seq<char>> {
    if new is Some {
        new
    } else {
        old
    }
}

fn choose_override(new: Option<&str>, old: &Option<String>) -> (r: Option<String>)
    ensures
        option_text(r) == override_of(
            match new {
                Some(s) => Some(s@),
                None => None,
            },
            option_text(*old),
        ),
{
    match new {
        Some(s) => Some(s.to_owned()),
        None => match old {
            Some(s) => Some(s.as_str().to_owned()),
            None => None,
        },
    }
}

/// An instance and the colours that are set for it.
#[derive(Debug)]
pub struct OverridePlan {
    pub position: usize,
    pub overrides: SymbolOverrides,
}

/// Sets the colours of an instance of a symbol; what is not given stays.
pub fn set_symbol_override(
    nodes: &Vec<Node>,
    name: &str,
    fill: Option<&str>,
    stroke: Option<&str>,
) -> (r: Result<OverridePlan, String>)
    ensures
        match r {
            Err(e) => instance_error(nodes@, name@) == Some(e@),
            Ok(p) => {
                let old = nodes@[target(nodes@, name@)].symbol->0;
                &&& instance_error(nodes@, name@) is None
                &&& p.position == target(nodes@, name@)
                &&& option_text(p.overrides.fill) == override_of(
                    match fill {
                        Some(s) => Some(s@),
                        None => None,
                    },
                    option_text(old.fill),
                )
                &&& option_text(p.overrides.stroke) == override_of(
                    match stroke {
                        Some(s) => Some(s@),
                        None => None,
                    },
                    option_text(old.stroke),
                )
            },
        },
{
    let k: usize = match find_instance(nodes, name) {
        Err(e) => {
            return Err(e);
        },
        Ok(k) => k,
    };
    match &nodes[k].symbol {
        None => Err(quoted_text("Node", name, " is not a symbol instance.")),
        Some(old) => Ok(
            OverridePlan {
                position: k,
                overrides: SymbolOverrides {
                    fill: choose_override(fill, &old.fill),
                    stroke: choose_override(stroke, &old.stroke),
                },
            },
        ),
    }
}

/// Takes the colours of an instance of a symbol off it. There is no position, only a
/// note, where it has none.
pub fn clear_symbol_overrides(nodes: &Vec<Node>, name: &str) -> (r: Result<
    (Option<usize>, String),
    String,
>)
    ensures
        match r {
            Err(e) => instance_error(nodes@, name@) == Some(e@),
            Ok((k, m)) => {
                let old = nodes@[target(nodes@, name@)].symbol->0;
                &&& instance_error(nodes@, name@) is None
                &&& if old.fill is None && old.stroke is None {
                    k is None && m@ == quoted_name("Node"@, name@, " has no symbol overrides."@)
                } else {
                    k == Some(target(nodes@, name@) as usize) && m@ == quoted_name(
                        "Symbol overrides cleared on"@,
                        name@,
                        "."@,
                    )
                }
            },
        },
{
    let k: usize = match find_instance(nodes, name) {
        Err(e) => {
            return Err(e);
        },
        Ok(k) => k,
    };
    match &nodes[k].symbol {
        None => Err(quoted_text("Node", name, " is not a symbol instance.")),
        Some(old) => if old.fill.is_none() && old.stroke.is_none() {
            Ok((None, quoted_text("Node", name, " has no symbol overrides.")))
        } else {
            Ok((Some(k), quoted_text("Symbol overrides cleared on", name, ".")))
        },
    }
}


/// A point between two starts at the first, keeps the coordinate that both have in common
/// whatever the other one is, and from the origin comes to the second.
pub proof fn law_points_between_two(a: Point, b: Point, t: Double)
    requires
        a.x.wf(),
        a.y.wf(),
        b.x.wf(),
        b.y.wf(),
        t.wf(),
        f_sub(b.x, a.x).wf(),
        f_sub(b.y, a.y).wf(),
    ensures
        ({
            let p = point_at(a, b, t);
            &&& t.key() == 0 ==> p.x.key() == a.x.key() && p.y.key() == a.y.key()
            &&& a.x == b.x ==> p.x.key() == a.x.key()
            &&& a.y == b.y ==> p.y.key() == a.y.key()
            &&& a.x.key() == 0 && t == whole(1) ==> p.x.key() == b.x.key()
            &&& a.y.key() == 0 && t == whole(1) ==> p.y.key() == b.y.key()
        }),
{
    lemma_number_at(a.x, b.x, t);
    lemma_number_at(a.y, b.y, t);
}

proof fn lemma_number_at(a: Double, b: Double, t: Double)
    requires
        a.wf(),
        b.wf(),
        t.wf(),
        f_sub(b, a).wf(),
    ensures
        t.key() == 0 ==> number_at(a, b, t).key() == a.key(),
        a == b ==> number_at(a, b, t).key() == a.key(),
        a.key() == 0 && t == whole(1) ==> number_at(a, b, t).key() == b.key(),
{
    let d = f_sub(b, a);
    if t.key() == 0 {
        lemma_nothing_times(t, d);
        lemma_plus_nothing(a, f_mul(d, t));
    }
    if a == b {
        lemma_self_difference(a);
        lemma_nothing_times(d, t);
        lemma_plus_nothing(a, f_mul(d, t));
    }
    if a.key() == 0 && t == whole(1) {
        lemma_neg(a);
        lemma_plus_nothing(b, f_neg(a));
        lemma_times_one(d);
        lemma_plus_nothing(d, a);
    }
}

/// Exchanging what is across and what is down exchanges them in the result, and no channel of
/// a colour is treated otherwise than the next one.
pub proof fn law_blend_treats_all_alike(
    a: Point,
    b: Point,
    c: Color,
    d: Color,
    t: Double,
    which: int,
)
    ensures
        point_at(Point { x: a.y, y: a.x }, Point { x: b.y, y: b.x }, t) == (Point {
            x: point_at(a, b, t).y,
            y: point_at(a, b, t).x,
        }),
        color_at(exchanged(c, which), exchanged(d, which), t) == exchanged(
            color_at(c, d, t),
            which,
        ),
{
}

/// Every point of an element is blended with the point that has its place in the other one.
pub proof fn law_elements_are_blended_point_by_point(
    a: PathEl,
    b: PathEl,
    c: PathEl,
    t: Double,
)
    requires
        a is CurveTo,
        b is CurveTo,
        c is CurveTo,
    ensures
        element_at(a, b, t) is CurveTo,
        a->CurveTo_0 == c->CurveTo_0 ==> element_at(a, b, t)->CurveTo_0 == element_at(
            c,
            PathEl::CurveTo(b->CurveTo_0, a->CurveTo_0, a->CurveTo_0),
            t,
        )->CurveTo_0,
        a->CurveTo_1 == c->CurveTo_1 ==> element_at(a, b, t)->CurveTo_1 == element_at(
            c,
            PathEl::CurveTo(a->CurveTo_0, b->CurveTo_1, a->CurveTo_0),
            t,
        )->CurveTo_1,
        a->CurveTo_2 == c->CurveTo_2 ==> element_at(a, b, t)->CurveTo_2 == element_at(
            c,
            PathEl::CurveTo(a->CurveTo_0, a->CurveTo_0, b->CurveTo_2),
            t,
        )->CurveTo_2,
{
}

/// How many steps a spacing gives depends on how far the nodes stand apart, and across and
/// down count alike in that.
pub proof fn law_spacing_is_by_distance(a: Node, b: Node, args: BlendArgs)
    requires
        args.spacing is Some,
    ensures
        ({
            let ta = Node {
                transform: Affine { e: a.transform.f, f: a.transform.e, ..a.transform },
                ..a
            };
            let tb = Node {
                transform: Affine { e: b.transform.f, f: b.transform.e, ..b.transform },
                ..b
            };
            step_count(a, b, args) == step_count(ta, tb, args)
        }),
{
    let dx = f_sub(b.transform.e, a.transform.e);
    let dy = f_sub(b.transform.f, a.transform.f);
    lemma_sum_commutes(f_mul(dx, dx), f_mul(dy, dy));
}

} // verus!
