//! Filling shapes with lines or dots, and picking the colour at a point.
use crate::arrange::{given_or_default, or_default};
use crate::bezier::{lemma_share_of_itself, Bounds, PathEl, Point, TINY};
use crate::bignum::power;
use crate::canvas::{box_of_path, path_box};
use crate::copies::{at_least_one, HALF};
use crate::double::Double;
use crate::float::{
    divided, exact, f_add, f_div, f_less, f_max, f_mul, f_narrow, f_neg, f_sqrt, f_sub, from_count,
    half, halved, lemma_positive, less, maximum, minus, narrowed, negated, plus, square_root, times,
    to_count, truncated, whole,
};
use crate::painting::{black, color_or_black, from_zero_to_one};
use crate::recolor::TOP_BYTE;
use crate::scene::{
    find_node, has_node, named_id, position_of, resolve_node_id, Color, ColorArg, Fill, Node,
    NodeKind,
};
use crate::shapes::ONE_AND_A_HALF;
use crate::steps::{
    is_plain, lemma_add, lemma_half, lemma_in_halves, lemma_neg, lemma_nothing_times, lemma_plain,
    lemma_plus_nothing, lemma_product_mirrors, lemma_same_value, lemma_steps, lemma_sub,
    lemma_sum_commutes, lemma_times, lemma_times_one, steps, within,
};
use crate::text::{chars_of, joined, same_text, text_of, texts};
use vstd::prelude::*;

verus! {

/// How many pieces a hatch line is divided into.
pub const HATCH_PIECES: usize = 100;

/// What is filled: the node at a position, or one of the paths drawn before.
#[derive(Debug, Clone, Copy, PartialEq, Eq, Structural)]
pub enum FillSource {
    Node(usize),
    Drawn(usize),
}

/// A path that is filled, and what is drawn over it: its name, the box that it fills,
/// its colour and its layer.
#[derive(Debug)]
pub struct FilledPath {
    pub source: FillSource,
    pub name: String,
    pub bounds: Bounds,
    pub color: Color,
    pub layer: u128,
}

#[verifier::ext_equal]
pub struct FilledView {
    pub source: FillSource,
    pub name: Seq<char>,
    pub bounds: Bounds,
    pub color: Color,
    pub layer: u128,
}

impl View for FilledPath {
    type V = FilledView;

    open spec fn view(&self) -> FilledView {
        FilledView {
            source: self.source,
            name: self.name@,
            bounds: self.bounds,
            color: self.color,
            layer: self.layer,
        }
    }
}

pub open spec fn filled_views(v: Seq<FilledPath>) -> Seq<FilledView> {
    v.map_values(|p: FilledPath| p@)
}

/// A box that is wide and high enough to be filled.
pub open spec fn is_fillable(b: Bounds) -> bool {
    let tiny = (Double { bits: TINY });
    !f_less(f_sub(b.x1, b.x0), tiny) && !f_less(f_sub(b.y1, b.y0), tiny)
}

/// The colour that a path is filled in: the given one, or that of its own solid fill.
/// It is black where the given one cannot be read, or where there is neither.
pub open spec fn drawn_color(node: Node, color: Option<ColorArg>) -> Color {
    match color {
        Some(c) => match c.color {
            Some(c) => c,
            None => black(),
        },
        None => match node.fill {
            Fill::Solid(c) => c,
            _ => black(),
        },
    }
}

fn find_drawn_color(node: &Node, color: &Option<ColorArg>) -> (r: Color)
    ensures
        r == drawn_color(*node, *color),
{
    match color {
        Some(c) => color_or_black(c.color),
        None => match &node.fill {
            Fill::Solid(c) => *c,
            _ => color_or_black(None),
        },
    }
}

/// How a kind of filling names what it draws, and whether that has a solid fill of the
/// colour that it is drawn in; otherwise it has none.
pub struct Filling {
    pub suffix: Seq<char>,
    pub solid: bool,
}

/// Hatch lines.
pub open spec fn hatching() -> Filling {
    Filling { suffix: " Hatch"@, solid: false }
}

/// Dots.
pub open spec fn stippling() -> Filling {
    Filling { suffix: " Stipple"@, solid: true }
}

/// The first of the paths that is called `name`.
pub open spec fn first_drawn(paths: Seq<FilledView>, name: Seq<char>) -> Option<int>
    decreases paths.len(),
{
    if paths.len() == 0 {
        None
    } else {
        match first_drawn(paths.drop_last(), name) {
            Some(j) => Some(j),
            None => if paths.last().name == name {
                Some(paths.len() - 1)
            } else {
                None
            },
        }
    }
}

/// What is filled where `name` is given: a path of the document, or one that was drawn
/// before and has the box `boxes` tells; in either case one that can be filled. What
/// was drawn has a new id, so that it is named by its name only.
pub open spec fn next_fill(
    nodes: Seq<Node>,
    paths: Seq<FilledView>,
    boxes: Seq<Bounds>,
    name: Seq<char>,
    filling: Filling,
    color: Option<ColorArg>,
) -> Option<FilledView> {
    match named_id(nodes, name) {
        Some(id) => {
            let k = position_of(nodes, id);
            let node = nodes[k];
            if has_node(nodes, id) && node.kind == NodeKind::Path && is_fillable(path_box(node)) {
                Some(
                    FilledView {
                        source: FillSource::Node(k as usize),
                        name: node.name@ + filling.suffix,
                        bounds: path_box(node),
                        color: drawn_color(node, color),
                        layer: node.layer,
                    },
                )
            } else {
                None
            }
        },
        None => match first_drawn(paths, name) {
            Some(j) => if is_fillable(boxes[j]) {
                Some(
                    FilledView {
                        source: FillSource::Drawn(j as usize),
                        name: paths[j].name + filling.suffix,
                        bounds: boxes[j],
                        color: match color {
                            Some(c) => match c.color {
                                Some(c) => c,
                                None => black(),
                            },
                            None => if filling.solid {
                                paths[j].color
                            } else {
                                black()
                            },
                        },
                        layer: paths[j].layer,
                    },
                )
            } else {
                None
            },
            None => None,
        },
    }
}

/// The paths that the first `n` names give, with the boxes of what is drawn over them.
/// `drawn` tells of each name the box of what is drawn, where anything is.
pub open spec fn fills_after(
    nodes: Seq<Node>,
    names: Seq<Seq<char>>,
    drawn: Seq<Option<Bounds>>,
    filling: Filling,
    color: Option<ColorArg>,
    n: nat,
) -> (Seq<FilledView>, Seq<Bounds>)
    decreases n,
{
    if n == 0 {
        (Seq::empty(), Seq::empty())
    } else {
        let (paths, boxes) = fills_after(nodes, names, drawn, filling, color, (n - 1) as nat);
        match next_fill(nodes, paths, boxes, names[n - 1], filling, color) {
            Some(f) => match drawn[n - 1] {
                Some(b) => (paths.push(f), boxes.push(b)),
                None => (paths, boxes),
            },
            None => (paths, boxes),
        }
    }
}

/// How far the filling has come: the paths that were drawn, what the next name gives,
/// how many names were passed over so far, and how many entries all this adds to the
/// history.
#[derive(Debug)]
pub struct FillPlan {
    pub paths: Vec<FilledPath>,
    pub next: Option<FilledPath>,
    pub skipped: usize,
    pub entries: usize,
}

/// `p` is how far the filling has come when the drawings of `drawn` are made.
pub open spec fn is_fill_plan(
    p: FillPlan,
    nodes: Seq<Node>,
    names: Seq<Seq<char>>,
    drawn: Seq<Option<Bounds>>,
    filling: Filling,
    color: Option<ColorArg>,
) -> bool {
    let (paths, boxes) = fills_after(nodes, names, drawn, filling, color, drawn.len());
    &&& filled_views(p.paths@) == paths
    &&& match p.next {
        Some(f) => drawn.len() < names.len() && next_fill(
            nodes,
            paths,
            boxes,
            names[drawn.len() as int],
            filling,
            color,
        ) == Some(f@),
        None => drawn.len() == names.len() || next_fill(
            nodes,
            paths,
            boxes,
            names[drawn.len() as int],
            filling,
            color,
        ) is None,
    }
    &&& p.skipped == drawn.len() - paths.len()
    &&& p.entries == paths.len()
}

fn find_drawn(paths: &Vec<FilledPath>, name: &str) -> (r: Option<usize>)
    ensures
        match r {
            Some(j) => j < paths.len() && first_drawn(filled_views(paths@), name@) == Some(
                j as int,
            ),
            None => first_drawn(filled_views(paths@), name@) is None,
        },
{
    let ghost all = filled_views(paths@);
    let mut found: Option<usize> = None;
    let mut j: usize = 0;
    assert(all.take(0) =~= Seq::<FilledView>::empty());
    while j < paths.len()
        invariant
            j <= paths.len(),
            all == filled_views(paths@),
            match found {
                Some(f) => f < j && first_drawn(all.take(j as int), name@) == Some(f as int),
                None => first_drawn(all.take(j as int), name@) is None,
            },
        decreases paths.len() - j,
    {
        proof {
            assert(all.take(j + 1).drop_last() =~= all.take(j as int));
            assert(all.take(j + 1).last() == all[j as int]);
        }
        if found.is_none() && same_text(paths[j].name.as_str(), name) {
            found = Some(j);
        }
        j += 1;
    }
    assert(all.take(all.len() as int) =~= all);
    found
}

fn can_be_filled(b: &Bounds) -> (r: bool)
    ensures
        r == is_fillable(*b),
{
    let tiny = Double { bits: TINY };
    !less(minus(b.x1, b.x0), tiny) && !less(minus(b.y1, b.y0), tiny)
}

fn find_fill(
    nodes: &Vec<Node>,
    paths: &Vec<FilledPath>,
    boxes: &Vec<Bounds>,
    name: &str,
    suffix: &str,
    solid: bool,
    color: &Option<ColorArg>,
) -> (r: Option<FilledPath>)
    requires
        boxes.len() == paths.len(),
    ensures
        ({
            let next = next_fill(
                nodes@,
                filled_views(paths@),
                boxes@,
                name@,
                Filling { suffix: suffix@, solid },
                *color,
            );
            match r {
                Some(f) => next == Some(f@),
                None => next is None,
            }
        }),
{
    match resolve_node_id(nodes, name) {
        Some(id) => match find_node(nodes, id) {
            Some(k) => {
                let node = &nodes[k];
                let b = box_of_path(node);
                if node.kind == NodeKind::Path && can_be_filled(&b) {
                    Some(
                        FilledPath {
                            source: FillSource::Node(k),
                            name: joined(node.name.as_str(), suffix),
                            bounds: b,
                            color: find_drawn_color(node, color),
                            layer: node.layer,
                        },
                    )
                } else {
                    None
                }
            },
            None => None,
        },
        None => match find_drawn(paths, name) {
            Some(j) => if can_be_filled(&boxes[j]) {
                let p = &paths[j];
                Some(
                    FilledPath {
                        source: FillSource::Drawn(j),
                        name: joined(p.name.as_str(), suffix),
                        bounds: boxes[j],
                        color: match color {
                            Some(c) => color_or_black(c.color),
                            None => if solid {
                                p.color
                            } else {
                                color_or_black(None)
                            },
                        },
                        layer: p.layer,
                    },
                )
            } else {
                None
            },
            None => None,
        },
    }
}

fn plan_fill(
    nodes: &Vec<Node>,
    names: &Vec<String>,
    drawn: &Vec<Option<Bounds>>,
    suffix: &str,
    solid: bool,
    color: &Option<ColorArg>,
) -> (r: FillPlan)
    requires
        drawn.len() <= names.len(),
    ensures
        is_fill_plan(
            r,
            nodes@,
            texts(names@),
            drawn@,
            Filling { suffix: suffix@, solid },
            *color,
        ),
{
    let ghost all = texts(names@);
    let ghost filling = Filling { suffix: suffix@, solid };
    let mut paths: Vec<FilledPath> = Vec::new();
    let mut boxes: Vec<Bounds> = Vec::new();
    let mut i: usize = 0;
    assert(filled_views(paths@) =~= Seq::<FilledView>::empty());
    while i < drawn.len()
        invariant
            i <= drawn.len() <= names.len(),
            all == texts(names@),
            filling == (Filling { suffix: suffix@, solid }),
            paths.len() <= i,
            boxes.len() == paths.len(),
            fills_after(nodes@, all, drawn@, filling, *color, i as nat) == (
                filled_views(paths@),
                boxes@,
            ),
        decreases drawn.len() - i,
    {
        assert(all[i as int] == names@[i as int]@);
        let next = find_fill(nodes, &paths, &boxes, names[i].as_str(), suffix, solid, color);
        if let Some(f) = next {
            if let Some(b) = drawn[i] {
                let ghost before = paths@;
                let ghost view = f@;
                paths.push(f);
                boxes.push(b);
                assert(filled_views(paths@) =~= filled_views(before).push(view));
            }
        }
        i += 1;
    }
    let next = if i < names.len() {
        assert(all[i as int] == names@[i as int]@);
        find_fill(nodes, &paths, &boxes, names[i].as_str(), suffix, solid, color)
    } else {
        None
    };
    FillPlan { skipped: i - paths.len(), entries: paths.len(), paths, next }
}

/// How shapes are hatched.
#[derive(Debug, Clone, Copy, PartialEq, Eq, Structural)]
pub struct HatchArgs {
    pub spacing: Option<Double>,
    pub angle: Option<Double>,
    pub cross_angle: Option<Double>,
}

/// The distance between hatch lines, at least a half.
pub open spec fn hatch_spacing(args: HatchArgs) -> Double {
    f_max(or_default(args.spacing, whole(5)), Double { bits: HALF })
}

/// The distance between hatch lines.
pub fn find_spacing(args: &HatchArgs) -> (r: Double)
    ensures
        r == hatch_spacing(*args),
{
    maximum(given_or_default(args.spacing, from_count(5)), Double { bits: HALF })
}

/// The width of the hatch lines: 1 where none is given.
pub fn find_line_width(stroke_width: Option<Double>) -> (r: Double)
    ensures
        r == or_default(stroke_width, whole(1)),
{
    given_or_default(stroke_width, from_count(1))
}

/// The angles of the hatch lines, in degrees.
pub open spec fn hatch_angles(args: HatchArgs) -> Seq<Double> {
    let first = or_default(args.angle, whole(45));
    match args.cross_angle {
        Some(c) => seq![first, c],
        None => seq![first],
    }
}

/// The angles of the hatch lines, in degrees.
pub fn find_angles(args: &HatchArgs) -> (r: Vec<Double>)
    ensures
        r@ == hatch_angles(*args),
{
    let mut out: Vec<Double> = Vec::new();
    out.push(given_or_default(args.angle, from_count(45)));
    if let Some(c) = args.cross_angle {
        out.push(c);
    }
    assert(out@ =~= hatch_angles(*args));
    out
}

/// The paths that are hatched, name by name. `drawn` tells of the first names the boxes
/// of the lines that were drawn over what they gave, where there were any: the run goes
/// on until it tells of all names. A name can be that of lines drawn before.
pub fn hatch_fill(
    nodes: &Vec<Node>,
    names: &Vec<String>,
    color: &Option<ColorArg>,
    drawn: &Vec<Option<Bounds>>,
) -> (r: Result<FillPlan, String>)
    requires
        drawn.len() <= names.len(),
    ensures
        match r {
            Err(e) => names@.len() == 0 && e@ == "node_ids must not be empty"@,
            Ok(p) => names@.len() > 0 && is_fill_plan(
                p,
                nodes@,
                texts(names@),
                drawn@,
                hatching(),
                *color,
            ),
        },
{
    if names.len() == 0 {
        return Err("node_ids must not be empty".to_owned());
    }
    Ok(plan_fill(nodes, names, drawn, " Hatch", false, color))
}

/// The diagonal of a box.
pub open spec fn diagonal(b: Bounds) -> Double {
    let w = f_sub(b.x1, b.x0);
    let h = f_sub(b.y1, b.y0);
    f_sqrt(f_add(f_mul(w, w), f_mul(h, h)))
}

fn diagonal_of(b: &Bounds) -> (r: Double)
    ensures
        r == diagonal(*b),
{
    let w = minus(b.x1, b.x0);
    let h = minus(b.y1, b.y0);
    square_root(plus(times(w, w), times(h, h)))
}

/// How many hatch lines lie on each side of the middle.
pub open spec fn side_lines(b: Bounds, spacing: Double) -> nat {
    truncated(f_div(diagonal(b), spacing), i32::MAX as nat) + 1
}

/// How many hatch lines lie on each side of the middle.
pub fn count_side_lines(b: &Bounds, spacing: Double) -> (r: u64)
    requires
        spacing.key() != 0,
    ensures
        r == side_lines(*b, spacing),
{
    to_count(divided(diagonal_of(b), spacing), i32::MAX as u64) + 1
}

/// A whole number with its sign as a number.
pub open spec fn signed_whole(i: int) -> Double {
    if i < 0 {
        f_neg(whole((-i) as nat))
    } else {
        whole(i as nat)
    }
}

/// The ends of hatch line `i`, counted from the middle, for lines in the direction
/// with the given cosine and sine.
pub open spec fn hatch_line(
    b: Bounds,
    spacing: Double,
    cosine: Double,
    sine: Double,
    i: int,
) -> (Point, Point) {
    let w = f_sub(b.x1, b.x0);
    let h = f_sub(b.y1, b.y0);
    let offset = f_mul(signed_whole(i), spacing);
    let x = f_add(f_add(b.x0, half(w)), f_mul(f_neg(sine), offset));
    let y = f_add(f_add(b.y0, half(h)), f_mul(cosine, offset));
    let d = diagonal(b);
    (
        Point { x: f_sub(x, f_mul(cosine, d)), y: f_sub(y, f_mul(sine, d)) },
        Point { x: f_add(x, f_mul(cosine, d)), y: f_add(y, f_mul(sine, d)) },
    )
}

/// The ends of hatch line `i`.
pub fn find_hatch_line(b: &Bounds, spacing: Double, cosine: Double, sine: Double, i: i64) -> (r: (
    Point,
    Point,
))
    requires
        i > i64::MIN,
    ensures
        r == hatch_line(*b, spacing, cosine, sine, i as int),
{
    let w = minus(b.x1, b.x0);
    let h = minus(b.y1, b.y0);
    let number = if i < 0 {
        negated(from_count((-i) as u64))
    } else {
        from_count(i as u64)
    };
    let offset = times(number, spacing);
    let x = plus(plus(b.x0, halved(w)), times(negated(sine), offset));
    let y = plus(plus(b.y0, halved(h)), times(cosine, offset));
    let d = diagonal_of(b);
    (
        Point { x: minus(x, times(cosine, d)), y: minus(y, times(sine, d)) },
        Point { x: plus(x, times(cosine, d)), y: plus(y, times(sine, d)) },
    )
}

/// Point `s` of a hatch line.
pub open spec fn hatch_point(p: Point, q: Point, s: nat) -> Point {
    let t = f_div(whole(s), whole(HATCH_PIECES as nat));
    Point {
        x: f_add(p.x, f_mul(f_sub(q.x, p.x), t)),
        y: f_add(p.y, f_mul(f_sub(q.y, p.y), t)),
    }
}

/// The points of a hatch line that are looked at.
pub open spec fn hatch_points(p: Point, q: Point) -> Seq<Point> {
    Seq::new((HATCH_PIECES + 1) as nat, |s: int| hatch_point(p, q, s as nat))
}

/// The points of a hatch line that are looked at.
pub fn hatch_samples(p: Point, q: Point) -> (r: Vec<Point>)
    ensures
        r@ == hatch_points(p, q),
{
    let mut out: Vec<Point> = Vec::new();
    let mut s: usize = 0;
    proof {
        lemma_positive(HATCH_PIECES as nat);
    }
    while s <= HATCH_PIECES
        invariant
            s <= HATCH_PIECES + 1,
            whole(HATCH_PIECES as nat).key() > 0,
            out@ == hatch_points(p, q).take(s as int),
        decreases HATCH_PIECES + 1 - s,
    {
        let t = divided(from_count(s as u64), from_count(HATCH_PIECES as u64));
        out.push(
            Point {
                x: plus(p.x, times(minus(q.x, p.x), t)),
                y: plus(p.y, times(minus(q.y, p.y), t)),
            },
        );
        s += 1;
        assert(out@ =~= hatch_points(p, q).take(s as int));
    }
    assert(out@ =~= hatch_points(p, q));
    out
}

/// A run of points that are inside: from the first up to, but not with, the last.
#[derive(Debug, Clone, Copy, PartialEq, Eq, Structural)]
pub struct Run {
    pub from: usize,
    pub to: usize,
}

/// The runs of points inside among the first `n` points, and where an open run
/// starts.
pub open spec fn runs_to(inside: Seq<bool>, n: nat) -> (Seq<Run>, Option<usize>)
    decreases n,
{
    if n == 0 {
        (Seq::empty(), None)
    } else {
        let (runs, open) = runs_to(inside, (n - 1) as nat);
        let s = (n - 1) as usize;
        match open {
            None => if inside[n - 1] {
                (runs, Some(s))
            } else {
                (runs, None)
            },
            Some(from) => if inside[n - 1] {
                (runs, Some(from))
            } else {
                (runs.push(Run { from, to: s }), None)
            },
        }
    }
}

/// All runs of points inside.
pub open spec fn runs_of(inside: Seq<bool>) -> Seq<Run> {
    let (runs, open) = runs_to(inside, inside.len());
    match open {
        None => runs,
        Some(from) => runs.push(Run { from, to: inside.len() as usize }),
    }
}

/// The lines that are drawn for the runs: from the first point inside to the first
/// one outside, or to the end of the hatch line.
pub open spec fn run_elements(p: Point, q: Point, runs: Seq<Run>) -> Seq<PathEl>
    decreases runs.len(),
{
    if runs.len() == 0 {
        Seq::empty()
    } else {
        let run = runs.last();
        run_elements(p, q, runs.drop_last()).push(
            PathEl::MoveTo(hatch_point(p, q, run.from as nat)),
        ).push(
            PathEl::LineTo(
                if run.to <= HATCH_PIECES {
                    hatch_point(p, q, run.to as nat)
                } else {
                    q
                },
            ),
        )
    }
}

fn find_runs(inside: &Vec<bool>) -> (r: Vec<Run>)
    ensures
        r@ == runs_of(inside@),
{
    let mut runs: Vec<Run> = Vec::new();
    let mut open: Option<usize> = None;
    let mut s: usize = 0;
    while s < inside.len()
        invariant
            s <= inside.len(),
            (runs@, open) == runs_to(inside@, s as nat),
        decreases inside.len() - s,
    {
        match open {
            None => {
                if inside[s] {
                    open = Some(s);
                }
            },
            Some(from) => {
                if !inside[s] {
                    runs.push(Run { from, to: s });
                    open = None;
                }
            },
        }
        s += 1;
    }
    if let Some(from) = open {
        runs.push(Run { from, to: inside.len() });
    }
    runs
}

/// The pieces of a hatch line that lie inside a shape. `inside` tells it of every
/// point of the line.
pub fn hatch_segments(p: Point, q: Point, inside: &Vec<bool>) -> (r: Vec<PathEl>)
    requires
        inside.len() == HATCH_PIECES + 1,
    ensures
        r@ == run_elements(p, q, runs_of(inside@)),
{
    let runs = find_runs(inside);
    let points = hatch_samples(p, q);
    proof {
        lemma_runs_in_range(inside@, inside@.len());
    }
    let mut out: Vec<PathEl> = Vec::new();
    let mut i: usize = 0;
    assert(runs@.take(0) =~= Seq::<Run>::empty());
    while i < runs.len()
        invariant
            i <= runs.len(),
            points@ == hatch_points(p, q),
            forall|j: int|
                0 <= j < runs.len() ==> (#[trigger] runs@[j]).from <= HATCH_PIECES && runs@[j].to
                    <= HATCH_PIECES + 1,
            out@ == run_elements(p, q, runs@.take(i as int)),
        decreases runs.len() - i,
    {
        proof {
            assert(runs@.take(i + 1).drop_last() =~= runs@.take(i as int));
            assert(runs@.take(i + 1).last() == runs@[i as int]);
        }
        let run = runs[i];
        out.push(PathEl::MoveTo(points[run.from]));
        let end = if run.to <= HATCH_PIECES {
            points[run.to]
        } else {
            q
        };
        out.push(PathEl::LineTo(end));
        i += 1;
    }
    assert(runs@.take(runs@.len() as int) =~= runs@);
    out
}

/// What is drawn of the first `m` hatch lines of one direction, which are numbered
/// from `-n` on. `inside` tells of every point of each line whether it lies inside.
pub open spec fn direction_elements(
    b: Bounds,
    spacing: Double,
    direction: (Double, Double),
    inside: Seq<Vec<bool>>,
    m: nat,
) -> Seq<PathEl>
    decreases m,
{
    if m == 0 {
        Seq::empty()
    } else {
        let (p, q) = hatch_line(
            b,
            spacing,
            direction.0,
            direction.1,
            m - 1 - side_lines(b, spacing),
        );
        direction_elements(b, spacing, direction, inside, (m - 1) as nat) + run_elements(
            p,
            q,
            runs_of(inside[m - 1]@),
        )
    }
}

/// What is drawn of the hatch lines of the first `d` directions.
pub open spec fn hatch_elements(
    b: Bounds,
    spacing: Double,
    directions: Seq<(Double, Double)>,
    inside: Seq<Vec<Vec<bool>>>,
    d: nat,
) -> Seq<PathEl>
    decreases d,
{
    if d == 0 {
        Seq::empty()
    } else {
        hatch_elements(b, spacing, directions, inside, (d - 1) as nat) + direction_elements(
            b,
            spacing,
            directions[d - 1],
            inside[d - 1]@,
            (2 * side_lines(b, spacing) + 1) as nat,
        )
    }
}

/// `inside` tells of every point of the hatch lines of one direction.
pub open spec fn covers_lines(inside: Seq<Vec<bool>>, b: Bounds, spacing: Double) -> bool {
    inside.len() == 2 * side_lines(b, spacing) + 1 && forall|j: int|
        0 <= j < inside.len() ==> (#[trigger] inside[j])@.len() == HATCH_PIECES + 1
}

fn push_direction(
    out: &mut Vec<PathEl>,
    b: &Bounds,
    spacing: Double,
    direction: (Double, Double),
    inside: &Vec<Vec<bool>>,
)
    requires
        spacing.key() != 0,
        covers_lines(inside@, *b, spacing),
    ensures
        final(out)@ == old(out)@ + direction_elements(
            *b,
            spacing,
            direction,
            inside@,
            inside@.len(),
        ),
{
    let n: u64 = count_side_lines(b, spacing);
    let ghost start = out@;
    let mut j: usize = 0;
    assert(out@ =~= start + direction_elements(*b, spacing, direction, inside@, 0));
    while j < inside.len()
        invariant
            j <= inside.len(),
            n == side_lines(*b, spacing),
            n <= i32::MAX + 1,
            covers_lines(inside@, *b, spacing),
            out@ == start + direction_elements(*b, spacing, direction, inside@, j as nat),
        decreases inside.len() - j,
    {
        let i: i64 = j as i64 - n as i64;
        let (p, q) = find_hatch_line(b, spacing, direction.0, direction.1, i);
        let mut pieces = hatch_segments(p, q, &inside[j]);
        out.append(&mut pieces);
        j += 1;
        assert(out@ =~= start + direction_elements(*b, spacing, direction, inside@, j as nat));
    }
}

/// The hatch of a shape with this box: for each direction, given by its cosine and
/// its sine, the pieces of its lines that lie inside the shape, from line `-n` to
/// line `n`. `inside` tells of every point of every line whether it lies inside.
pub fn hatch_path(
    b: &Bounds,
    spacing: Double,
    directions: &Vec<(Double, Double)>,
    inside: &Vec<Vec<Vec<bool>>>,
) -> (r: Vec<PathEl>)
    requires
        spacing.key() != 0,
        inside@.len() == directions@.len(),
        forall|d: int|
            0 <= d < inside@.len() ==> covers_lines((#[trigger] inside@[d])@, *b, spacing),
    ensures
        r@ == hatch_elements(*b, spacing, directions@, inside@, directions@.len()),
{
    let mut out: Vec<PathEl> = Vec::new();
    let mut d: usize = 0;
    while d < directions.len()
        invariant
            d <= directions.len(),
            spacing.key() != 0,
            inside@.len() == directions@.len(),
            forall|d: int|
                0 <= d < inside@.len() ==> covers_lines((#[trigger] inside@[d])@, *b, spacing),
            out@ == hatch_elements(*b, spacing, directions@, inside@, d as nat),
        decreases directions.len() - d,
    {
        push_direction(&mut out, b, spacing, directions[d], &inside[d]);
        d += 1;
    }
    out
}

proof fn lemma_runs_in_range(inside: Seq<bool>, n: nat)
    requires
        n <= inside.len() <= usize::MAX,
    ensures
        forall|j: int|
            0 <= j < runs_to(inside, n).0.len() ==> (#[trigger] runs_to(inside, n).0[j]).from < n
                && runs_to(inside, n).0[j].to < n,
        runs_to(inside, n).1 matches Some(from) ==> from < n,
    decreases n,
{
    if n > 0 {
        lemma_runs_in_range(inside, (n - 1) as nat);
    }
}

/// A point lies in a run.
pub open spec fn in_run(r: Run, s: int) -> bool {
    r.from <= s < r.to
}

proof fn lemma_runs_hold(inside: Seq<bool>, n: nat, s: int)
    requires
        n <= inside.len() <= usize::MAX,
        0 <= s < n,
    ensures
        ({
            let (runs, open) = runs_to(inside, n);
            inside[s] <==> ((exists|j: int| 0 <= j < runs.len() && in_run(#[trigger] runs[j], s))
                || (open matches Some(from) && from <= s))
        }),
        runs_to(inside, n).1 matches Some(from) ==> from < n,
        forall|j: int|
            0 <= j < runs_to(inside, n).0.len() ==> (#[trigger] runs_to(inside, n).0[j]).to < n,
    decreases n,
{
    let m = (n - 1) as nat;
    let (before, was) = runs_to(inside, m);
    let (runs, open) = runs_to(inside, n);
    lemma_runs_in_range(inside, m);
    lemma_runs_in_range(inside, n);
    if s < m {
        lemma_runs_hold(inside, m, s);
    }
    if runs.len() > before.len() {
        assert(runs == before.push(runs.last()));
        assert(runs[before.len() as int] == runs.last());
    }
    let old_holds = exists|j: int| 0 <= j < before.len() && in_run(#[trigger] before[j], s);
    let now_holds = exists|j: int| 0 <= j < runs.len() && in_run(#[trigger] runs[j], s);
    if old_holds {
        let j = choose|j: int| 0 <= j < before.len() && in_run(#[trigger] before[j], s);
        assert(runs[j] == before[j]);
        assert(in_run(runs[j], s));
    }
    if now_holds {
        let j = choose|j: int| 0 <= j < runs.len() && in_run(#[trigger] runs[j], s);
        if j < before.len() {
            assert(before[j] == runs[j]);
            assert(in_run(before[j], s));
        }
    }
}

/// Exactly the points that are inside lie in a run.
pub proof fn law_runs_are_inside(inside: Seq<bool>, s: int)
    requires
        inside.len() <= usize::MAX,
        0 <= s < inside.len(),
    ensures
        inside[s] <==> exists|j: int|
            0 <= j < runs_of(inside).len() && in_run(#[trigger] runs_of(inside)[j], s),
{
    lemma_runs_hold(inside, inside.len(), s);
    let (runs, open) = runs_to(inside, inside.len());
    let all = runs_of(inside);
    match open {
        None => {
            assert(all == runs);
        },
        Some(from) => {
            let last = Run { from, to: inside.len() as usize };
            assert(all == runs.push(last));
            assert(all[runs.len() as int] == last);
            if exists|j: int| 0 <= j < runs.len() && in_run(#[trigger] runs[j], s) {
                let j = choose|j: int| 0 <= j < runs.len() && in_run(#[trigger] runs[j], s);
                assert(all[j] == runs[j]);
            }
            if exists|j: int| 0 <= j < all.len() && in_run(#[trigger] all[j], s) {
                let j = choose|j: int| 0 <= j < all.len() && in_run(#[trigger] all[j], s);
                if j < runs.len() {
                    assert(runs[j] == all[j]);
                    assert(in_run(runs[j], s));
                }
            }
            if inside[s] && from <= s {
                assert(in_run(all[runs.len() as int], s));
            }
        },
    }
}

/// The paths that are filled with dots, name by name, as [`hatch_fill`] fills them with
/// lines.
pub fn stipple_fill(
    nodes: &Vec<Node>,
    names: &Vec<String>,
    color: &Option<ColorArg>,
    drawn: &Vec<Option<Bounds>>,
) -> (r: Result<FillPlan, String>)
    requires
        drawn.len() <= names.len(),
    ensures
        match r {
            Err(e) => names@.len() == 0 && e@ == "node_ids must not be empty"@,
            Ok(p) => names@.len() > 0 && is_fill_plan(
                p,
                nodes@,
                texts(names@),
                drawn@,
                stippling(),
                *color,
            ),
        },
{
    if names.len() == 0 {
        return Err("node_ids must not be empty".to_owned());
    }
    Ok(plan_fill(nodes, names, drawn, " Stipple", true, color))
}

/// How shapes are filled with dots.
#[derive(Debug, Clone, Copy, PartialEq, Eq, Structural)]
pub struct StippleArgs {
    pub count: Option<usize>,
    pub dot_radius: Option<Double>,
    pub seed: Option<u64>,
}

/// How many dots a shape gets, how many points are tried for them, the radius of a
/// dot, and the seed of the random numbers.
#[derive(Debug, Clone, Copy, PartialEq, Eq, Structural)]
pub struct StippleSettings {
    pub count: usize,
    pub attempts: usize,
    pub dot_radius: Double,
    pub seed: u64,
}

/// The settings of a stipple: 200 dots by default, and 20 points for each.
pub fn stipple_settings(args: &StippleArgs) -> (r: StippleSettings)
    requires
        at_least_one(args.count, 200) * 20 <= usize::MAX,
    ensures
        r.count == at_least_one(args.count, 200),
        r.attempts == 20 * r.count,
        r.dot_radius == or_default(args.dot_radius, Double { bits: ONE_AND_A_HALF }),
        r.seed == match args.seed {
            Some(s) => if s >= 1 {
                s
            } else {
                1
            },
            None => 42,
        },
{
    let count: usize = match args.count {
        Some(n) => if n >= 1 {
            n
        } else {
            1
        },
        None => 200,
    };
    StippleSettings {
        count,
        attempts: count * 20,
        dot_radius: given_or_default(args.dot_radius, Double { bits: ONE_AND_A_HALF }),
        seed: match args.seed {
            Some(s) => if s >= 1 {
                s
            } else {
                1
            },
            None => 42,
        },
    }
}

/// A point of a box, from two random numbers from -1 to 1.
pub open spec fn stipple_point(b: Bounds, u: Double, v: Double) -> Point {
    Point {
        x: f_add(b.x0, f_mul(from_zero_to_one(u), f_sub(b.x1, b.x0))),
        y: f_add(b.y0, f_mul(from_zero_to_one(v), f_sub(b.y1, b.y0))),
    }
}

/// The points that are tried, from random numbers in their order.
pub fn stipple_points(b: &Bounds, values: &Vec<(Double, Double)>) -> (r: Vec<Point>)
    ensures
        r@ == Seq::new(
            values@.len(),
            |i: int| stipple_point(*b, values@[i].0, values@[i].1),
        ),
{
    let ghost goal = Seq::new(
        values@.len(),
        |i: int| stipple_point(*b, values@[i].0, values@[i].1),
    );
    let h = Double { bits: HALF };
    let w = minus(b.x1, b.x0);
    let k = minus(b.y1, b.y0);
    let mut out: Vec<Point> = Vec::new();
    let mut i: usize = 0;
    while i < values.len()
        invariant
            i <= values.len(),
            h == (Double { bits: HALF }),
            w == f_sub(b.x1, b.x0),
            k == f_sub(b.y1, b.y0),
            goal == Seq::new(
                values@.len(),
                |i: int| stipple_point(*b, values@[i].0, values@[i].1),
            ),
            out@ == goal.take(i as int),
        decreases values.len() - i,
    {
        let (u, v) = values[i];
        out.push(
            Point {
                x: plus(b.x0, times(plus(times(u, h), h), w)),
                y: plus(b.y0, times(plus(times(v, h), h), k)),
            },
        );
        i += 1;
        assert(out@ =~= goal.take(i as int));
    }
    assert(out@ =~= goal);
    out
}

/// The first points inside a shape among the first `n`, up to `count`.
pub open spec fn placed_dots(points: Seq<Point>, inside: Seq<bool>, count: nat, n: nat) -> Seq<Point>
    decreases n,
{
    if n == 0 {
        Seq::empty()
    } else {
        let before = placed_dots(points, inside, count, (n - 1) as nat);
        if before.len() < count && inside[n - 1] {
            before.push(points[n - 1])
        } else {
            before
        }
    }
}

/// The dots that are placed: of the points that were tried, the first `count` that
/// lie inside.
pub fn place_dots(points: &Vec<Point>, inside: &Vec<bool>, count: usize) -> (r: Vec<Point>)
    requires
        inside.len() == points.len(),
    ensures
        r@ == placed_dots(points@, inside@, count as nat, points@.len()),
        r.len() <= count,
{
    let mut out: Vec<Point> = Vec::new();
    let mut i: usize = 0;
    while i < points.len()
        invariant
            i <= points.len(),
            inside.len() == points.len(),
            out.len() <= count,
            out@ == placed_dots(points@, inside@, count as nat, i as nat),
        decreases points.len() - i,
    {
        if out.len() < count && inside[i] {
            out.push(points[i]);
        }
        i += 1;
    }
    out
}

/// A layer as it is shown.
#[derive(Debug)]
pub struct ShownLayer {
    pub visible: bool,
    /// From the back to the front.
    pub node_ids: Vec<u128>,
}

/// What a point meets of a node.
#[derive(Debug, Clone, Copy, PartialEq, Eq, Structural)]
pub enum Hit {
    Miss,
    /// The point lies inside a path.
    Inside,
    /// The point meets a pixel of an image: red, green, blue, opacity, and how much
    /// of it the mask leaves.
    Pixel(u8, u8, u8, u8, Double),
}

/// A pixel that is not seen through entirely.
pub open spec fn is_opaque(a: u8, coverage: Double, opacity: Double) -> bool {
    f_less(
        Double { bits: 0 },
        f_narrow(
            f_mul(
                f_narrow(
                    f_mul(
                        f_narrow(f_div(whole(a as nat), Double { bits: TOP_BYTE })),
                        coverage,
                    ),
                ),
                opacity,
            ),
        ),
    )
}

/// A node that the colour is taken from.
pub open spec fn is_sampled(node: Node, hit: Hit) -> bool {
    node.visible && match hit {
        Hit::Miss => false,
        Hit::Inside => node.kind == NodeKind::Path,
        Hit::Pixel(r, g, b, a, coverage) => node.kind == NodeKind::Raster && is_opaque(
            a,
            coverage,
            node.opacity,
        ),
    }
}

/// The topmost sampled node among the first `n` ids of a layer.
pub open spec fn sampled_in_layer(nodes: Seq<Node>, hits: Seq<Hit>, ids: Seq<u128>, n: nat) -> Option<
    int,
>
    decreases n,
{
    if n == 0 {
        None
    } else {
        let k = position_of(nodes, ids[n - 1]);
        if has_node(nodes, ids[n - 1]) && is_sampled(nodes[k], hits[k]) {
            Some(k)
        } else {
            sampled_in_layer(nodes, hits, ids, (n - 1) as nat)
        }
    }
}

/// The topmost sampled node in the first `n` layers.
pub open spec fn sampled_node(
    nodes: Seq<Node>,
    hits: Seq<Hit>,
    layers: Seq<ShownLayer>,
    n: nat,
) -> Option<int>
    decreases n,
{
    if n == 0 {
        None
    } else {
        let layer = layers[n - 1];
        let here = sampled_in_layer(nodes, hits, layer.node_ids@, layer.node_ids@.len());
        if layer.visible && here is Some {
            here
        } else {
            sampled_node(nodes, hits, layers, (n - 1) as nat)
        }
    }
}

fn sampled(node: &Node, hit: Hit) -> (r: bool)
    ensures
        r == is_sampled(*node, hit),
{
    if !node.visible {
        return false;
    }
    match hit {
        Hit::Miss => false,
        Hit::Inside => node.kind == NodeKind::Path,
        Hit::Pixel(r, g, b, a, coverage) => {
            let share = narrowed(divided(from_count(a as u64), Double { bits: TOP_BYTE }));
            let seen = narrowed(times(narrowed(times(share, coverage)), node.opacity));
            node.kind == NodeKind::Raster && less(Double { bits: 0 }, seen)
        },
    }
}

/// The topmost node that the colour at a point is taken from. `hits` tells what the
/// point meets of each node.
pub fn sample_color_at(nodes: &Vec<Node>, hits: &Vec<Hit>, layers: &Vec<ShownLayer>) -> (r: Option<
    usize,
>)
    requires
        hits.len() == nodes.len(),
    ensures
        match r {
            Some(k) => sampled_node(nodes@, hits@, layers@, layers@.len()) == Some(k as int),
            None => sampled_node(nodes@, hits@, layers@, layers@.len()) is None,
        },
{
    let mut n: usize = layers.len();
    while n > 0
        invariant
            n <= layers.len(),
            hits.len() == nodes.len(),
            sampled_node(nodes@, hits@, layers@, layers@.len()) == sampled_node(
                nodes@,
                hits@,
                layers@,
                n as nat,
            ),
        decreases n,
    {
        let layer = &layers[n - 1];
        if layer.visible {
            let ids = &layer.node_ids;
            let mut m: usize = ids.len();
            while m > 0
                invariant
                    m <= ids.len(),
                    0 < n <= layers.len(),
                    *layer == layers@[n - 1],
                    *ids == layer.node_ids,
                    layer.visible,
                    hits.len() == nodes.len(),
                    sampled_node(nodes@, hits@, layers@, layers@.len()) == sampled_node(
                        nodes@,
                        hits@,
                        layers@,
                        n as nat,
                    ),
                    sampled_in_layer(nodes@, hits@, ids@, ids@.len()) == sampled_in_layer(
                        nodes@,
                        hits@,
                        ids@,
                        m as nat,
                    ),
                decreases m,
            {
                if let Some(k) = find_node(nodes, ids[m - 1]) {
                    if sampled(&nodes[k], hits[k]) {
                        return Some(k);
                    }
                }
                m -= 1;
            }
        }
        n -= 1;
    }
    None
}

/// A pixel as it is written.
pub open spec fn pixel_text(r: u8, g: u8, b: u8) -> Seq<char> {
    "#"@ + upper_pair(r) + upper_pair(g) + upper_pair(b)
}

pub open spec fn upper_digit(n: nat) -> char {
    if n < 10 {
        (48 + n) as char
    } else {
        (55 + n) as char
    }
}

/// A byte by two digits to the base 16, with capital letters.
pub open spec fn upper_pair(v: u8) -> Seq<char> {
    seq![upper_digit(v as nat / 16), upper_digit(v as nat % 16)]
}

fn digit_of(n: u8) -> (r: char)
    requires
        n < 16,
    ensures
        r == upper_digit(n as nat),
{
    if n < 10 {
        (48 + n) as char
    } else {
        (55 + n) as char
    }
}

fn push_pair(out: &mut Vec<char>, v: u8)
    ensures
        final(out)@ == old(out)@ + upper_pair(v),
{
    let ghost before = out@;
    out.push(digit_of(v / 16));
    out.push(digit_of(v % 16));
    assert(out@ =~= before + upper_pair(v));
}

/// A pixel as it is written.
pub fn pixel_hex(r: u8, g: u8, b: u8) -> (t: String)
    ensures
        t@ == pixel_text(r, g, b),
{
    let mut v = chars_of("#");
    push_pair(&mut v, r);
    push_pair(&mut v, g);
    push_pair(&mut v, b);
    text_of(&v)
}


/// Lines that run across lie one spacing below one another, from the middle of the box on,
/// and lines that run down one spacing beside one another.
pub proof fn law_hatch_lines_are_evenly_apart(b: Bounds, spacing: Double, i: int, j: nat)
    requires
        is_plain(b.x0, j),
        is_plain(b.x1, j),
        is_plain(b.y0, j),
        is_plain(b.y1, j),
        is_plain(spacing, j),
        diagonal(b).wf(),
        -0x10_0000 <= i <= 0x10_0000,
    ensures
        ({
            let zero = (Double { bits: 0 });
            let (p, q) = hatch_line(b, spacing, whole(1), zero, i);
            let (r, s) = hatch_line(b, spacing, zero, whole(1), i);
            &&& 2 * exact(p.y) == exact(b.y0) + exact(b.y1) + 2 * (i * exact(spacing))
            &&& p.y.key() == q.y.key()
            &&& 2 * exact(r.x) == exact(b.x0) + exact(b.x1) - 2 * (i * exact(spacing))
            &&& r.x.key() == s.x.key()
        }),
{
    let zero = (Double { bits: 0 });
    let one = whole(1);
    let d = diagonal(b);
    let offset = f_mul(signed_whole(i), spacing);
    lemma_signed_times(i, spacing, j);
    lemma_middle_of(b.x0, b.x1, j);
    lemma_middle_of(b.y0, b.y1, j);
    let h = (j - 1) as nat;
    let cx = f_add(b.x0, half(f_sub(b.x1, b.x0)));
    let cy = f_add(b.y0, half(f_sub(b.y1, b.y0)));
    lemma_times_one(offset);
    lemma_in_halves(offset, j, 0x4_0000_0000_0000);
    lemma_add(cy, offset, h, 0x1_0000_0000, 0x8_0000_0000_0000);
    lemma_sub(cx, offset, h, 0x1_0000_0000, 0x8_0000_0000_0000);
    lemma_neg(one);
    lemma_neg(offset);
    lemma_product_mirrors(one, offset);
    assert(f_mul(f_neg(one), offset) == f_neg(offset));
    lemma_nothing_times(zero, d);
    let y = f_add(cy, offset);
    let x = f_add(cx, f_neg(offset));
    lemma_neg(f_mul(zero, d));
    lemma_plus_nothing(y, f_mul(zero, d));
    lemma_plus_nothing(y, f_neg(f_mul(zero, d)));
    lemma_plus_nothing(x, f_mul(zero, d));
    lemma_plus_nothing(x, f_neg(f_mul(zero, d)));
    lemma_same_value(f_sub(y, f_mul(zero, d)), y);
    lemma_same_value(f_sub(x, f_mul(zero, d)), x);
}

proof fn lemma_signed_times(i: int, s: Double, j: nat)
    requires
        is_plain(s, j),
        -0x10_0000 <= i <= 0x10_0000,
    ensures
        within(f_mul(signed_whole(i), s), j, 0x4_0000_0000_0000),
        exact(f_mul(signed_whole(i), s)) == i * exact(s),
{
    lemma_plain(s, j);
    let k = (if i < 0 {
        -i
    } else {
        i
    }) as nat;
    let m = steps(s, j);
    let w = power(2, j);
    assert(k * 0x4000_0000 <= 0x10_0000 * 0x4000_0000) by (nonlinear_arith)
        requires
            k <= 0x10_0000,
    ;
    lemma_times(k, s, j, 0x4000_0000);
    let p = f_mul(whole(k), s);
    let n = steps(p, j);
    if i < 0 {
        lemma_product_mirrors(whole(k), s);
        lemma_neg(p);
        assert((-n) * w == -(n * w)) by (nonlinear_arith);
        lemma_steps(f_neg(p), j, -n);
        let e = exact(s);
        assert((-i) * e == -(i * e)) by (nonlinear_arith);
    }
}

proof fn lemma_middle_of(from: Double, to: Double, j: nat)
    requires
        is_plain(from, j),
        is_plain(to, j),
    ensures
        within(f_add(from, half(f_sub(to, from))), (j - 1) as nat, 0x1_0000_0000),
        2 * exact(f_add(from, half(f_sub(to, from)))) == exact(from) + exact(to),
{
    let h = (j - 1) as nat;
    lemma_plain(from, j);
    lemma_plain(to, j);
    lemma_sub(to, from, j, 0x4000_0000, 0x4000_0000);
    lemma_half(f_sub(to, from), j, 0x8000_0000);
    lemma_add(from, half(f_sub(to, from)), h, 0x8000_0000, 0x8000_0000);
}

/// The points along a line start at its start and end at its end, and across they depend on
/// nothing that is down.
pub proof fn law_hatch_points_join_the_ends(p: Point, q: Point, r: Point, s: Point, n: nat, j: nat)
    requires
        is_plain(p.x, j),
        is_plain(p.y, j),
        is_plain(q.x, j),
        is_plain(q.y, j),
    ensures
        exact(hatch_point(p, q, 0).x) == exact(p.x),
        exact(hatch_point(p, q, 0).y) == exact(p.y),
        exact(hatch_point(p, q, HATCH_PIECES as nat).x) == exact(q.x),
        exact(hatch_point(p, q, HATCH_PIECES as nat).y) == exact(q.y),
        p.x == r.x && q.x == s.x ==> hatch_point(p, q, n).x == hatch_point(r, s, n).x,
        p.y == r.y && q.y == s.y ==> hatch_point(p, q, n).y == hatch_point(r, s, n).y,
{
    lemma_along(p.x, q.x, j);
    lemma_along(p.y, q.y, j);
}

proof fn lemma_along(from: Double, to: Double, j: nat)
    requires
        is_plain(from, j),
        is_plain(to, j),
    ensures
        ({
            let n = HATCH_PIECES as nat;
            let d = f_sub(to, from);
            &&& exact(f_add(from, f_mul(d, f_div(whole(0), whole(n))))) == exact(from)
            &&& exact(f_add(from, f_mul(d, f_div(whole(n), whole(n))))) == exact(to)
        }),
{
    let n = HATCH_PIECES as nat;
    lemma_plain(from, j);
    lemma_plain(to, j);
    lemma_sub(to, from, j, 0x4000_0000, 0x4000_0000);
    let d = f_sub(to, from);
    lemma_share_of_itself(n);
    lemma_times_one(d);
    lemma_add(from, d, j, 0x4000_0000, 0x8000_0000);
    let z = f_mul(d, f_div(whole(0), whole(n)));
    lemma_nothing_times(f_div(whole(0), whole(n)), d);
    lemma_plus_nothing(from, z);
    lemma_same_value(f_add(from, z), from);
}

/// Across, a dot depends on the first random number and the left and right edges alone; down,
/// on the second number, the top and the bottom, in the same way.
pub proof fn law_dot_axes_are_apart(b: Bounds, c: Bounds, u: Double, v: Double, t: Double)
    ensures
        b.x0 == c.x0 && b.x1 == c.x1 ==> stipple_point(b, u, v).x == stipple_point(c, u, t).x,
        b.y0 == c.y0 && b.y1 == c.y1 ==> stipple_point(b, u, v).y == stipple_point(c, t, v).y,
        b.x0 == c.y0 && b.x1 == c.y1 ==> stipple_point(b, u, v).x == stipple_point(c, t, u).y,
        diagonal(b) == diagonal(Bounds { x0: b.y0, y0: b.x0, x1: b.y1, y1: b.x1 }),
{
    let w = f_sub(b.x1, b.x0);
    let h = f_sub(b.y1, b.y0);
    lemma_sum_commutes(f_mul(w, w), f_mul(h, h));
}

/// There are never more dots than asked for, and each of them is a point that lies inside.
pub proof fn law_dots_lie_inside(
    points: Seq<Point>,
    inside: Seq<bool>,
    count: nat,
    n: nat,
    a: int,
)
    requires
        n <= points.len(),
        n <= inside.len(),
        0 <= a < placed_dots(points, inside, count, n).len(),
    ensures
        placed_dots(points, inside, count, n).len() <= count,
        exists|k: int|
            0 <= k < n && inside[k] && placed_dots(points, inside, count, n)[a]
                == #[trigger] points[k],
    decreases n,
{
    let before = placed_dots(points, inside, count, (n - 1) as nat);
    if a < before.len() {
        law_dots_lie_inside(points, inside, count, (n - 1) as nat, a);
        let k = choose|k: int| 0 <= k < n - 1 && inside[k] && before[a] == #[trigger] points[k];
        assert(placed_dots(points, inside, count, n)[a] == points[k]);
    } else {
        assert(placed_dots(points, inside, count, n)[a] == points[n - 1]);
        if before.len() > 0 {
            law_dots_lie_inside(points, inside, count, (n - 1) as nat, 0);
        }
    }
}

/// A pixel is written with its red first, its green next and its blue last, each in the same
/// two digits wherever it stands.
pub proof fn law_pixel_text_keeps_channels_apart(v: u8, x: u8, y: u8, z: u8)
    ensures
        pixel_text(v, x, y).len() == 7,
        pixel_text(v, x, y).subrange(1, 3) == pixel_text(z, v, y).subrange(3, 5),
        pixel_text(v, x, y).subrange(1, 3) == pixel_text(z, x, v).subrange(5, 7),
        pixel_text(v, x, y).subrange(1, 3) == pixel_text(v, z, z).subrange(1, 3),
{
    reveal_strlit("#");
    assert("#"@.len() == 1);
    assert(pixel_text(v, x, y).subrange(1, 3) =~= upper_pair(v));
    assert(pixel_text(z, v, y).subrange(3, 5) =~= upper_pair(v));
    assert(pixel_text(z, x, v).subrange(5, 7) =~= upper_pair(v));
    assert(pixel_text(v, z, z).subrange(1, 3) =~= upper_pair(v));
}


/// A path is filled with its own box, on its own layer, in the colour that is given, or else
/// in its own.
pub proof fn law_filled_paths_keep_their_own(
    nodes: Seq<Node>,
    paths: Seq<FilledView>,
    boxes: Seq<Bounds>,
    name: Seq<char>,
    filling: Filling,
    color: Option<ColorArg>,
)
    requires
        named_id(nodes, name) is Some,
    ensures
        next_fill(nodes, paths, boxes, name, filling, color) matches Some(f) ==> {
            let node = nodes[position_of(nodes, named_id(nodes, name)->0)];
            &&& node.kind == NodeKind::Path
            &&& f.layer == node.layer
            &&& f.name == node.name@ + filling.suffix
            &&& node.bounds matches Some(b) ==> f.bounds == b
            &&& color is None && node.fill is Solid ==> f.color == node.fill->Solid_0
            &&& color is Some && color->0.color is Some ==> f.color == color->0.color->0
        },
{
}

/// A box is filled only where it is not too flat, across or down.
pub proof fn law_flat_boxes_are_not_filled(b: Bounds)
    ensures
        f_less(f_sub(b.x1, b.x0), Double { bits: TINY }) ==> !is_fillable(b),
        f_less(f_sub(b.y1, b.y0), Double { bits: TINY }) ==> !is_fillable(b),
        is_fillable(b) == is_fillable(Bounds { x0: b.y0, y0: b.x0, x1: b.y1, y1: b.x1 }),
{
}

/// In a layer the node that is sampled is the last one that the point meets: it is met, and
/// none behind it in the list is.
pub proof fn law_last_met_is_sampled(nodes: Seq<Node>, hits: Seq<Hit>, ids: Seq<u128>, n: nat)
    requires
        n <= ids.len(),
    ensures
        match sampled_in_layer(nodes, hits, ids, n) {
            Some(k) => is_sampled(nodes[k], hits[k]) && exists|i: int|
                0 <= i < n && k == position_of(nodes, #[trigger] ids[i]) && forall|a: int|
                    i < a < n ==> !(has_node(nodes, #[trigger] ids[a]) && is_sampled(
                        nodes[position_of(nodes, ids[a])],
                        hits[position_of(nodes, ids[a])],
                    )),
            None => forall|a: int|
                0 <= a < n ==> !(has_node(nodes, #[trigger] ids[a]) && is_sampled(
                    nodes[position_of(nodes, ids[a])],
                    hits[position_of(nodes, ids[a])],
                )),
        },
    decreases n,
{
    if n > 0 {
        let k = position_of(nodes, ids[n - 1]);
        if !(has_node(nodes, ids[n - 1]) && is_sampled(nodes[k], hits[k])) {
            law_last_met_is_sampled(nodes, hits, ids, (n - 1) as nat);
        }
    }
}

/// What is hidden, or not met, is not sampled.
pub proof fn law_hidden_nodes_are_not_sampled(node: Node, hit: Hit)
    ensures
        !node.visible ==> !is_sampled(node, hit),
        hit is Miss ==> !is_sampled(node, hit),
        is_sampled(node, hit) && hit is Inside ==> node.kind == NodeKind::Path,
        is_sampled(node, hit) && hit is Pixel ==> node.kind == NodeKind::Raster,
{
}

} // verus!
