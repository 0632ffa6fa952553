//! Moving artwork to the canvas: centring it, fitting it, and putting it on whole
//! coordinates.
use crate::arrange::{given_or_default, or_default};
use crate::bezier::{path_with_points, Bounds, PathEl, Point, ONE, TINY};
use crate::double::{Double, INFINITE, SIGN};
use crate::float::{
    absolute, at_most, divided, exact, f_abs, f_add, f_at_most, f_div, f_less, f_max, f_min, f_mul,
    f_round, f_sub, from_count, half, halved, infinity, lemma_difference_positive,
    lemma_round_stays, lemma_self_difference, less, maximum, minimum, minus, plus, round_number,
    times, whole,
};
use crate::scene::{
    around_id, entries_for, find_node, first_missing, found_positions, has_node, id_text,
    lemma_first_missing, named_ids, one_entry, position_of, positions_found, resolve_node_ids,
    resolve_targets, targets, Node, NodeKind,
};
use crate::steps::{
    is_plain, lemma_add, lemma_half, lemma_plain, lemma_sub, lemma_times, lemma_times_one,
    lemma_zero_value,
};
use crate::text::{chars_of, decimal_text, number_text, push_all, push_str, text_of, texts};
use vstd::prelude::*;

verus! {

/// The box of a path; a path without one has an empty box at the origin.
pub open spec fn path_box(node: Node) -> Bounds {
    match node.bounds {
        Some(b) => b,
        None => Bounds {
            x0: Double { bits: 0 },
            y0: Double { bits: 0 },
            x1: Double { bits: 0 },
            y1: Double { bits: 0 },
        },
    }
}

pub fn box_of_path(node: &Node) -> (r: Bounds)
    ensures
        r == path_box(*node),
{
    match &node.bounds {
        Some(b) => *b,
        None => Bounds {
            x0: Double { bits: 0 },
            y0: Double { bits: 0 },
            x1: Double { bits: 0 },
            y1: Double { bits: 0 },
        },
    }
}

/// The box that holds nothing.
pub open spec fn no_box() -> Bounds {
    Bounds { x0: infinity(false), y0: infinity(false), x1: infinity(true), y1: infinity(true) }
}

fn empty_box() -> (r: Bounds)
    ensures
        r == no_box(),
{
    Bounds {
        x0: Double { bits: INFINITE },
        y0: Double { bits: INFINITE },
        x1: Double { bits: INFINITE + SIGN },
        y1: Double { bits: INFINITE + SIGN },
    }
}

/// `b` widened to the box `w`, which is shifted by `(tx, ty)`.
pub open spec fn widened(b: Bounds, w: Bounds, tx: Double, ty: Double) -> Bounds {
    Bounds {
        x0: f_min(b.x0, f_add(w.x0, tx)),
        y0: f_min(b.y0, f_add(w.y0, ty)),
        x1: f_max(b.x1, f_add(w.x1, tx)),
        y1: f_max(b.y1, f_add(w.y1, ty)),
    }
}

fn widen(b: &Bounds, w: &Bounds, tx: Double, ty: Double) -> (r: Bounds)
    ensures
        r == widened(*b, *w, tx, ty),
{
    Bounds {
        x0: minimum(b.x0, plus(w.x0, tx)),
        y0: minimum(b.y0, plus(w.y0, ty)),
        x1: maximum(b.x1, plus(w.x1, tx)),
        y1: maximum(b.y1, plus(w.y1, ty)),
    }
}

/// `b` widened to the point `(x, y)`.
pub open spec fn widened_to(b: Bounds, x: Double, y: Double) -> Bounds {
    Bounds { x0: f_min(b.x0, x), y0: f_min(b.y0, y), x1: f_max(b.x1, x), y1: f_max(b.y1, y) }
}

/// The box around the artwork with these ids. A path counts with its box, and
/// everything else, where `all` is set, with the point that it stands at.
pub open spec fn artwork_box(nodes: Seq<Node>, ids: Seq<u128>, all: bool) -> Bounds
    decreases ids.len(),
{
    if ids.len() == 0 {
        no_box()
    } else {
        let before = artwork_box(nodes, ids.drop_last(), all);
        if has_node(nodes, ids.last()) {
            let node = nodes[position_of(nodes, ids.last())];
            let m = node.transform;
            if node.kind == NodeKind::Path {
                widened(before, path_box(node), m.e, m.f)
            } else if all {
                widened_to(before, m.e, m.f)
            } else {
                before
            }
        } else {
            before
        }
    }
}

fn measure_artwork(nodes: &Vec<Node>, ids: &Vec<u128>, all: bool) -> (r: Bounds)
    ensures
        r == artwork_box(nodes@, ids@, all),
{
    let mut b = empty_box();
    let mut i: usize = 0;
    assert(ids@.take(0) =~= Seq::<u128>::empty());
    while i < ids.len()
        invariant
            i <= ids.len(),
            b == artwork_box(nodes@, ids@.take(i as int), all),
        decreases ids.len() - i,
    {
        proof {
            assert(ids@.take(i + 1).drop_last() =~= ids@.take(i as int));
            assert(ids@.take(i + 1).last() == ids@[i as int]);
        }
        if let Some(k) = find_node(nodes, ids[i]) {
            let m = &nodes[k].transform;
            if nodes[k].kind == NodeKind::Path {
                let w = box_of_path(&nodes[k]);
                b = widen(&b, &w, m.e, m.f);
            } else if all {
                b = Bounds {
                    x0: minimum(b.x0, m.e),
                    y0: minimum(b.y0, m.f),
                    x1: maximum(b.x1, m.e),
                    y1: maximum(b.y1, m.f),
                };
            }
        }
        i += 1;
    }
    assert(ids@.take(ids@.len() as int) =~= ids@);
    b
}

/// The nodes that are moved, and how far.
#[derive(Debug)]
pub struct CenterPlan {
    pub positions: Vec<usize>,
    pub dx: Double,
    pub dy: Double,
    /// How many entries this adds to the history.
    pub entries: usize,
}

/// Why nothing is centred.
pub open spec fn center_error(nodes: Seq<Node>, ids: Seq<u128>) -> Option<Seq<char>> {
    let b = artwork_box(nodes, ids, true);
    if ids.len() == 0 {
        Some("No nodes specified and nothing selected"@)
    } else if f_at_most(b.x1, b.x0) && f_at_most(b.y1, b.y0) {
        Some("No measurable artwork"@)
    } else {
        None
    }
}

/// Moves the middle of the artwork to that of the canvas, along the axes that are
/// asked for.
pub fn center_on_canvas(
    nodes: &Vec<Node>,
    selection: &Vec<u128>,
    names: &Vec<String>,
    canvas: (Double, Double),
    horizontal: bool,
    vertical: bool,
) -> (r: Result<CenterPlan, String>)
    ensures
        ({
            let ids = targets(nodes@, selection@, texts(names@));
            let b = artwork_box(nodes@, ids, true);
            match r {
                Err(e) => center_error(nodes@, ids) == Some(e@),
                Ok(p) => {
                    &&& center_error(nodes@, ids) is None
                    &&& p.positions@ == found_positions(nodes@, ids, false)
                    &&& p.entries == p.positions@.len()
                    &&& p.dx == if horizontal {
                        f_sub(half(canvas.0), half(f_add(b.x0, b.x1)))
                    } else {
                        Double { bits: 0 }
                    }
                    &&& p.dy == if vertical {
                        f_sub(half(canvas.1), half(f_add(b.y0, b.y1)))
                    } else {
                        Double { bits: 0 }
                    }
                    &&& brings_to_middle(b, canvas, horizontal, vertical, p.dx, p.dy)
                },
            }
        }),
{
    let ids = resolve_targets(nodes, selection, names);
    if ids.len() == 0 {
        return Err("No nodes specified and nothing selected".to_owned());
    }
    let b = measure_artwork(nodes, &ids, true);
    if at_most(b.x1, b.x0) && at_most(b.y1, b.y0) {
        return Err("No measurable artwork".to_owned());
    }
    let zero = Double { bits: 0 };
    let dx = if horizontal {
        minus(halved(canvas.0), halved(plus(b.x0, b.x1)))
    } else {
        zero
    };
    let dy = if vertical {
        minus(halved(canvas.1), halved(plus(b.y0, b.y1)))
    } else {
        zero
    };
    let positions = positions_found(nodes, &ids, false);
    proof {
        lemma_brings_to_middle(b, canvas, horizontal, vertical);
    }
    Ok(CenterPlan { entries: positions.len(), positions, dx, dy })
}

/// A uniform scaling about the middle of the artwork, which goes to the middle of
/// the canvas.
#[derive(Debug, Clone, Copy, PartialEq, Eq, Structural)]
pub struct Fit {
    pub scale: Double,
    pub art_cx: Double,
    pub art_cy: Double,
    pub canvas_cx: Double,
    pub canvas_cy: Double,
}

/// The paths that are fitted, and how.
#[derive(Debug)]
pub struct FitPlan {
    pub positions: Vec<usize>,
    pub fit: Fit,
    /// How many entries this adds to the history.
    pub entries: usize,
}

/// Where a point of a path goes that stands at `(tx, ty)`.
pub open spec fn fitted(fit: Fit, tx: Double, ty: Double, p: Point) -> Point {
    Point {
        x: f_add(f_mul(f_sub(f_add(p.x, tx), fit.art_cx), fit.scale), fit.canvas_cx),
        y: f_add(f_mul(f_sub(f_add(p.y, ty), fit.art_cy), fit.scale), fit.canvas_cy),
    }
}

fn fit_point(fit: &Fit, tx: Double, ty: Double, p: Point) -> (r: Point)
    ensures
        r == fitted(*fit, tx, ty, p),
{
    Point {
        x: plus(times(minus(plus(p.x, tx), fit.art_cx), fit.scale), fit.canvas_cx),
        y: plus(times(minus(plus(p.y, ty), fit.art_cy), fit.scale), fit.canvas_cy),
    }
}

/// Fits a path that stands at `(tx, ty)`.
pub fn fit_path(path: &Vec<PathEl>, tx: Double, ty: Double, fit: &Fit) -> (r: Vec<PathEl>)
    ensures
        r@ == path_with_points(path@, |p: Point| fitted(*fit, tx, ty, p)),
{
    let ghost goal = path_with_points(path@, |p: Point| fitted(*fit, tx, ty, p));
    let mut out: Vec<PathEl> = Vec::new();
    let mut i: usize = 0;
    while i < path.len()
        invariant
            i <= path.len(),
            goal == path_with_points(path@, |p: Point| fitted(*fit, tx, ty, p)),
            out@ == goal.take(i as int),
        decreases path.len() - i,
    {
        out.push(
            match path[i] {
                PathEl::MoveTo(p) => PathEl::MoveTo(fit_point(fit, tx, ty, p)),
                PathEl::LineTo(p) => PathEl::LineTo(fit_point(fit, tx, ty, p)),
                PathEl::QuadTo(c, p) => PathEl::QuadTo(
                    fit_point(fit, tx, ty, c),
                    fit_point(fit, tx, ty, p),
                ),
                PathEl::CurveTo(c, d, p) => PathEl::CurveTo(
                    fit_point(fit, tx, ty, c),
                    fit_point(fit, tx, ty, d),
                    fit_point(fit, tx, ty, p),
                ),
                PathEl::ClosePath => PathEl::ClosePath,
            },
        );
        i += 1;
        assert(out@ =~= goal.take(i as int));
    }
    assert(out@ =~= goal);
    out
}

/// The ids that are fitted: those that are named, or all.
pub open spec fn fit_ids(nodes: Seq<Node>, names: Seq<Seq<char>>) -> Seq<u128> {
    if names.len() == 0 {
        Seq::new(nodes.len(), |i: int| nodes[i].id)
    } else {
        named_ids(nodes, names)
    }
}

/// The room that the padding leaves.
pub open spec fn padded(size: Double, padding: Double) -> Double {
    f_sub(size, f_mul(whole(2), padding))
}

/// Why nothing is fitted.
pub open spec fn fit_error(
    nodes: Seq<Node>,
    ids: Seq<u128>,
    canvas: (Double, Double),
    padding: Double,
) -> Option<Seq<char>> {
    let b = artwork_box(nodes, ids, false);
    let zero = (Double { bits: 0 });
    if ids.len() == 0 {
        Some("No nodes to fit"@)
    } else if f_at_most(b.x1, b.x0) || f_at_most(b.y1, b.y0) {
        Some("No measurable artwork found"@)
    } else if f_at_most(padded(canvas.0, padding), zero) || f_at_most(
        padded(canvas.1, padding),
        zero,
    ) {
        Some("Canvas too small for the specified padding"@)
    } else {
        None
    }
}

/// The scaling that fits the box `b` into the canvas. Nothing is enlarged.
pub open spec fn fit_of(b: Bounds, canvas: (Double, Double), padding: Double) -> Fit {
    Fit {
        scale: f_min(
            f_min(
                f_div(padded(canvas.0, padding), f_sub(b.x1, b.x0)),
                f_div(padded(canvas.1, padding), f_sub(b.y1, b.y0)),
            ),
            Double { bits: ONE },
        ),
        art_cx: half(f_add(b.x0, b.x1)),
        art_cy: half(f_add(b.y0, b.y1)),
        canvas_cx: half(canvas.0),
        canvas_cy: half(canvas.1),
    }
}

proof fn lemma_box_has_numbers(nodes: Seq<Node>, ids: Seq<u128>, all: bool)
    ensures
        ({
            let b = artwork_box(nodes, ids, all);
            !b.x0.is_nan() && !b.y0.is_nan() && !b.x1.is_nan() && !b.y1.is_nan()
        }),
    decreases ids.len(),
{
    if ids.len() > 0 {
        lemma_box_has_numbers(nodes, ids.drop_last(), all);
    }
}

fn all_ids(nodes: &Vec<Node>) -> (r: Vec<u128>)
    ensures
        r@ == Seq::new(nodes@.len(), |i: int| nodes@[i].id),
{
    let mut out: Vec<u128> = Vec::new();
    let mut i: usize = 0;
    while i < nodes.len()
        invariant
            i <= nodes.len(),
            out@ == Seq::new(i as nat, |i: int| nodes@[i].id),
        decreases nodes.len() - i,
    {
        out.push(nodes[i].id);
        i += 1;
        assert(out@ =~= Seq::new(i as nat, |i: int| nodes@[i].id));
    }
    out
}

/// Scales the artwork down to the canvas and moves it to the middle.
pub fn fit_to_canvas(
    nodes: &Vec<Node>,
    names: &Vec<String>,
    canvas: (Double, Double),
    padding: Option<Double>,
) -> (r: Result<FitPlan, String>)
    ensures
        ({
            let ids = fit_ids(nodes@, texts(names@));
            let pad = or_default(padding, whole(10));
            match r {
                Err(e) => fit_error(nodes@, ids, canvas, pad) == Some(e@),
                Ok(p) => {
                    &&& fit_error(nodes@, ids, canvas, pad) is None
                    &&& p.positions@ == found_positions(nodes@, ids, true)
                    &&& p.entries == p.positions@.len()
                    &&& p.fit == fit_of(artwork_box(nodes@, ids, false), canvas, pad)
                },
            }
        }),
{
    let pad = given_or_default(padding, from_count(10));
    assert(texts(names@).len() == names@.len());
    let ids = if names.len() == 0 {
        all_ids(nodes)
    } else {
        resolve_node_ids(nodes, names)
    };
    if ids.len() == 0 {
        return Err("No nodes to fit".to_owned());
    }
    let b = measure_artwork(nodes, &ids, false);
    if at_most(b.x1, b.x0) || at_most(b.y1, b.y0) {
        return Err("No measurable artwork found".to_owned());
    }
    let zero = Double { bits: 0 };
    let two = from_count(2);
    let room_w = minus(canvas.0, times(two, pad));
    let room_h = minus(canvas.1, times(two, pad));
    if at_most(room_w, zero) || at_most(room_h, zero) {
        return Err("Canvas too small for the specified padding".to_owned());
    }
    proof {
        lemma_box_has_numbers(nodes@, ids@, false);
        lemma_difference_positive(b.x0, b.x1);
        lemma_difference_positive(b.y0, b.y1);
    }
    let scale = minimum(
        minimum(divided(room_w, minus(b.x1, b.x0)), divided(room_h, minus(b.y1, b.y0))),
        Double { bits: ONE },
    );
    let fit = Fit {
        scale,
        art_cx: halved(plus(b.x0, b.x1)),
        art_cy: halved(plus(b.y0, b.y1)),
        canvas_cx: halved(canvas.0),
        canvas_cy: halved(canvas.1),
    };
    let positions = positions_found(nodes, &ids, true);
    Ok(FitPlan { entries: positions.len(), positions, fit })
}

/// A node and the coordinates that it is put at.
#[derive(Debug, Clone, Copy, PartialEq, Eq, Structural)]
pub struct Snap {
    pub position: usize,
    pub tx: Double,
    pub ty: Double,
}

/// What is snapped, and what is said.
#[derive(Debug)]
pub struct SnapPlan {
    pub snaps: Vec<Snap>,
    /// How many entries this adds to the history.
    pub entries: usize,
    pub message: String,
}

pub open spec fn is_off(x: Double) -> bool {
    f_less((Double { bits: TINY }), f_abs(f_sub(x, f_round(x))))
}

/// The nodes of the first `n` ids that do not stand at whole coordinates.
pub open spec fn snaps_of(nodes: Seq<Node>, ids: Seq<u128>, n: nat) -> Seq<Snap>
    decreases n,
{
    if n == 0 {
        Seq::empty()
    } else {
        let before = snaps_of(nodes, ids, (n - 1) as nat);
        let k = position_of(nodes, ids[n - 1]);
        let m = nodes[k].transform;
        if is_off(m.e) || is_off(m.f) {
            before.push(Snap { position: k as usize, tx: f_round(m.e), ty: f_round(m.f) })
        } else {
            before
        }
    }
}

pub open spec fn snap_message(snapped: nat, n: nat) -> Seq<char> {
    if snapped == 0 {
        decimal_text(n) + " node(s) already on integer coordinates — no changes made"@
    } else {
        "Snapped "@ + decimal_text(snapped) + " of "@ + decimal_text(n)
            + " node(s) to pixel coordinates"@
    }
}

/// Puts nodes at whole coordinates.
pub fn snap_to_pixel(nodes: &Vec<Node>, ids: &Vec<u128>) -> (r: Result<SnapPlan, String>)
    ensures
        match r {
            Err(e) => if ids.len() == 0 {
                e@ == "node_ids must not be empty"@
            } else {
                first_missing(nodes@, ids@) matches Some(id) && e@ == "Node "@ + id_text(id)
                    + " not found"@
            },
            Ok(p) => {
                &&& ids.len() > 0
                &&& first_missing(nodes@, ids@) is None
                &&& p.snaps@ == snaps_of(nodes@, ids@, ids@.len())
                &&& p.entries == entries_for(p.snaps@.len())
                &&& p.message@ == snap_message(p.snaps@.len(), ids@.len())
            },
        },
{
    if ids.len() == 0 {
        return Err("node_ids must not be empty".to_owned());
    }
    let mut snaps: Vec<Snap> = Vec::new();
    let mut i: usize = 0;
    assert(ids@.take(0) =~= Seq::<u128>::empty());
    while i < ids.len()
        invariant
            i <= ids.len(),
            first_missing(nodes@, ids@.take(i as int)) is None,
            snaps@ == snaps_of(nodes@, ids@, i as nat),
        decreases ids.len() - i,
    {
        proof {
            assert(ids@.take(i + 1).drop_last() =~= ids@.take(i as int));
            assert(ids@.take(i + 1).last() == ids@[i as int]);
        }
        match find_node(nodes, ids[i]) {
            None => {
                proof {
                    lemma_first_missing(nodes@, ids@, i + 1);
                }
                return Err(around_id("Node ", ids[i], " not found"));
            },
            Some(k) => {
                let m = &nodes[k].transform;
                let tx = round_number(m.e);
                let ty = round_number(m.f);
                let tiny = Double { bits: TINY };
                if less(tiny, absolute(minus(m.e, tx))) || less(tiny, absolute(minus(m.f, ty))) {
                    snaps.push(Snap { position: k, tx, ty });
                }
            },
        }
        i += 1;
    }
    assert(ids@.take(ids@.len() as int) =~= ids@);
    let n: usize = snaps.len();
    let mut v: Vec<char>;
    if n == 0 {
        v = number_text(ids.len() as u64);
        push_str(&mut v, " node(s) already on integer coordinates — no changes made");
    } else {
        v = chars_of("Snapped ");
        push_all(&mut v, &number_text(n as u64));
        push_str(&mut v, " of ");
        push_all(&mut v, &number_text(ids.len() as u64));
        push_str(&mut v, " node(s) to pixel coordinates");
    }
    Ok(SnapPlan { snaps, entries: one_entry(n), message: text_of(&v) })
}

/// A coordinate that was snapped is not snapped again.
pub proof fn law_snapped_stays(x: Double)
    ensures
        !is_off(f_round(x)),
{
    lemma_round_stays(x);
    lemma_self_difference(f_round(x));
}


/// A move that brings the middle of a box to the middle of the canvas, along the axes that
/// are asked for, wherever nothing has to be rounded; along the others it does not move it.
pub open spec fn brings_to_middle(
    b: Bounds,
    canvas: (Double, Double),
    horizontal: bool,
    vertical: bool,
    dx: Double,
    dy: Double,
) -> bool {
    &&& horizontal ==> forall|j: nat|
        #![trigger is_plain(canvas.0, j)]
        is_plain(canvas.0, j) && is_plain(b.x0, j) && is_plain(b.x1, j) ==> (exact(b.x0) + exact(
            dx,
        )) + (exact(b.x1) + exact(dx)) == exact(canvas.0)
    &&& vertical ==> forall|j: nat|
        #![trigger is_plain(canvas.1, j)]
        is_plain(canvas.1, j) && is_plain(b.y0, j) && is_plain(b.y1, j) ==> (exact(b.y0) + exact(
            dy,
        )) + (exact(b.y1) + exact(dy)) == exact(canvas.1)
    &&& !horizontal ==> exact(dx) == 0
    &&& !vertical ==> exact(dy) == 0
}

proof fn lemma_brings_to_middle(
    b: Bounds,
    canvas: (Double, Double),
    horizontal: bool,
    vertical: bool,
)
    ensures
        brings_to_middle(
            b,
            canvas,
            horizontal,
            vertical,
            if horizontal {
                f_sub(half(canvas.0), half(f_add(b.x0, b.x1)))
            } else {
                Double { bits: 0 }
            },
            if vertical {
                f_sub(half(canvas.1), half(f_add(b.y0, b.y1)))
            } else {
                Double { bits: 0 }
            },
        ),
{
    lemma_zero_value(Double { bits: 0 });
    assert forall|j: nat|
        #![trigger is_plain(canvas.0, j)]
        is_plain(canvas.0, j) && is_plain(b.x0, j) && is_plain(b.x1, j) implies exact(b.x0) + exact(
        b.x1,
    ) + 2 * exact(f_sub(half(canvas.0), half(f_add(b.x0, b.x1)))) == exact(canvas.0) by {
        lemma_to_middle(b.x0, b.x1, canvas.0, j);
    }
    assert forall|j: nat|
        #![trigger is_plain(canvas.1, j)]
        is_plain(canvas.1, j) && is_plain(b.y0, j) && is_plain(b.y1, j) implies exact(b.y0) + exact(
        b.y1,
    ) + 2 * exact(f_sub(half(canvas.1), half(f_add(b.y0, b.y1)))) == exact(canvas.1) by {
        lemma_to_middle(b.y0, b.y1, canvas.1, j);
    }
}

proof fn lemma_to_middle(from: Double, to: Double, size: Double, j: nat)
    requires
        is_plain(from, j),
        is_plain(to, j),
        is_plain(size, j),
    ensures
        exact(from) + exact(to) + 2 * exact(f_sub(half(size), half(f_add(from, to)))) == exact(
            size,
        ),
{
    let h = (j - 1) as nat;
    lemma_plain(from, j);
    lemma_plain(to, j);
    lemma_plain(size, j);
    lemma_add(from, to, j, 0x4000_0000, 0x4000_0000);
    lemma_half(f_add(from, to), j, 0x8000_0000);
    lemma_half(size, j, 0x4000_0000);
    lemma_sub(half(size), half(f_add(from, to)), h, 0x4000_0000, 0x8000_0000);
}

/// Artwork is fitted about its middle, which goes to the middle of the canvas, and it is
/// scaled by the same factor across and down: never larger than it is, and by the smaller of
/// the two factors that fill the canvas.
pub proof fn law_artwork_is_fitted(b: Bounds, canvas: (Double, Double), padding: Double, j: nat)
    requires
        is_plain(b.x0, j),
        is_plain(b.x1, j),
        is_plain(b.y0, j),
        is_plain(b.y1, j),
        is_plain(canvas.0, j),
        is_plain(canvas.1, j),
    ensures
        ({
            let fit = fit_of(b, canvas, padding);
            let across = f_div(padded(canvas.0, padding), f_sub(b.x1, b.x0));
            let down = f_div(padded(canvas.1, padding), f_sub(b.y1, b.y0));
            &&& 2 * exact(fit.art_cx) == exact(b.x0) + exact(b.x1)
            &&& 2 * exact(fit.art_cy) == exact(b.y0) + exact(b.y1)
            &&& 2 * exact(fit.canvas_cx) == exact(canvas.0)
            &&& 2 * exact(fit.canvas_cy) == exact(canvas.1)
            &&& !across.is_nan() ==> fit.scale.key() <= across.key()
            &&& !down.is_nan() ==> fit.scale.key() <= down.key()
            &&& fit.scale.key() <= 0x3ff0_0000_0000_0000
            &&& fit.scale == across || fit.scale == down || fit.scale.bits
                == 0x3ff0_0000_0000_0000
        }),
{
    lemma_plain(b.x0, j);
    lemma_plain(b.x1, j);
    lemma_plain(b.y0, j);
    lemma_plain(b.y1, j);
    lemma_plain(canvas.0, j);
    lemma_plain(canvas.1, j);
    lemma_add(b.x0, b.x1, j, 0x4000_0000, 0x4000_0000);
    lemma_add(b.y0, b.y1, j, 0x4000_0000, 0x4000_0000);
    lemma_half(f_add(b.x0, b.x1), j, 0x8000_0000);
    lemma_half(f_add(b.y0, b.y1), j, 0x8000_0000);
    lemma_half(canvas.0, j, 0x4000_0000);
    lemma_half(canvas.1, j, 0x4000_0000);
}

/// The padding is left free on both sides.
pub proof fn law_padding_is_on_both_sides(size: Double, padding: Double, j: nat)
    requires
        is_plain(size, j),
        is_plain(padding, j),
    ensures
        exact(padded(size, padding)) + exact(padding) + exact(padding) == exact(size),
{
    lemma_plain(size, j);
    lemma_plain(padding, j);
    lemma_times(2, padding, j, 0x4000_0000);
    lemma_sub(size, f_mul(whole(2), padding), j, 0x4000_0000, 0x8000_0000);
}

/// The point in the middle of the artwork is fitted to the middle of the canvas, and where
/// nothing is scaled every other one keeps its distance from it; across, nothing depends on
/// what is down, and the other way round.
pub proof fn law_fitted_points_keep_their_side(
    fit: Fit,
    tx: Double,
    ty: Double,
    p: Point,
    j: nat,
)
    requires
        is_plain(p.x, j),
        is_plain(p.y, j),
        is_plain(tx, j),
        is_plain(ty, j),
        is_plain(fit.art_cx, j),
        is_plain(fit.art_cy, j),
        is_plain(fit.canvas_cx, j),
        is_plain(fit.canvas_cy, j),
        fit.scale == whole(1),
    ensures
        ({
            let q = fitted(fit, tx, ty, p);
            &&& exact(q.x) - exact(fit.canvas_cx) == exact(p.x) + exact(tx) - exact(fit.art_cx)
            &&& exact(q.y) - exact(fit.canvas_cy) == exact(p.y) + exact(ty) - exact(fit.art_cy)
        }),
{
    lemma_fitted(p.x, tx, fit.art_cx, fit.canvas_cx, j);
    lemma_fitted(p.y, ty, fit.art_cy, fit.canvas_cy, j);
}

proof fn lemma_fitted(p: Double, t: Double, art: Double, canvas: Double, j: nat)
    requires
        is_plain(p, j),
        is_plain(t, j),
        is_plain(art, j),
        is_plain(canvas, j),
    ensures
        exact(f_add(f_mul(f_sub(f_add(p, t), art), whole(1)), canvas)) == exact(p) + exact(t)
            - exact(art) + exact(canvas),
{
    lemma_plain(p, j);
    lemma_plain(t, j);
    lemma_plain(art, j);
    lemma_plain(canvas, j);
    lemma_add(p, t, j, 0x4000_0000, 0x4000_0000);
    lemma_sub(f_add(p, t), art, j, 0x8000_0000, 0x4000_0000);
    lemma_times_one(f_sub(f_add(p, t), art));
    lemma_add(f_sub(f_add(p, t), art), canvas, j, 0xc000_0000, 0x4000_0000);
}

/// Across, a fitted point depends on nothing that is down, and the other way round; both are
/// scaled alike.
pub proof fn law_fitted_axes_are_apart(
    a: Fit,
    b: Fit,
    tx: Double,
    ty: Double,
    p: Point,
    q: Point,
)
    requires
        a.scale == b.scale,
    ensures
        a.art_cx == b.art_cx && a.canvas_cx == b.canvas_cx && p.x == q.x ==> fitted(
            a,
            tx,
            ty,
            p,
        ).x == fitted(b, tx, tx, q).x,
        a.art_cy == b.art_cy && a.canvas_cy == b.canvas_cy && p.y == q.y ==> fitted(
            a,
            tx,
            ty,
            p,
        ).y == fitted(b, ty, ty, q).y,
        a.art_cx == a.art_cy && a.canvas_cx == a.canvas_cy && p.x == p.y && tx == ty ==> fitted(
            a,
            tx,
            ty,
            p,
        ).x == fitted(a, tx, ty, p).y,
{
}

/// A node that is snapped comes to stand at whole coordinates, each of them the one nearest to
/// the coordinate that it had.
pub proof fn law_snapped_nodes_keep_their_axes(nodes: Seq<Node>, ids: Seq<u128>, n: nat, a: int)
    requires
        n <= ids.len(),
        0 <= a < snaps_of(nodes, ids, n).len(),
    ensures
        exists|k: int|
            0 <= k < n && ({
                let m = nodes[position_of(nodes, #[trigger] ids[k])].transform;
                let s = snaps_of(nodes, ids, n)[a];
                s.position == position_of(nodes, ids[k]) as usize && s.tx == f_round(m.e) && s.ty
                    == f_round(m.f)
            }),
    decreases n,
{
    let before = snaps_of(nodes, ids, (n - 1) as nat);
    if a < before.len() {
        law_snapped_nodes_keep_their_axes(nodes, ids, (n - 1) as nat, a);
        let k = choose|k: int|
            0 <= k < n - 1 && ({
                let m = nodes[position_of(nodes, #[trigger] ids[k])].transform;
                let s = before[a];
                s.position == position_of(nodes, ids[k]) as usize && s.tx == f_round(m.e) && s.ty
                    == f_round(m.f)
            });
        assert(snaps_of(nodes, ids, n)[a] == before[a]);
        assert(0 <= k < n);
    } else {
        let id = ids[n - 1];
    }
}


/// The box around artwork holds every path of it, where it stands, across and down; and with
/// everything counted, it holds the place of whatever has no outline too.
pub proof fn law_artwork_is_in_its_box(nodes: Seq<Node>, ids: Seq<u128>, all: bool, i: int)
    requires
        0 <= i < ids.len(),
        has_node(nodes, ids[i]),
        ({
            let node = nodes[position_of(nodes, ids[i])];
            let w = path_box(node);
            let m = node.transform;
            &&& !f_add(w.x0, m.e).is_nan() && !f_add(w.x1, m.e).is_nan()
            &&& !f_add(w.y0, m.f).is_nan() && !f_add(w.y1, m.f).is_nan()
            &&& !m.e.is_nan() && !m.f.is_nan()
        }),
    ensures
        ({
            let b = artwork_box(nodes, ids, all);
            let node = nodes[position_of(nodes, ids[i])];
            let w = path_box(node);
            let m = node.transform;
            &&& node.kind == NodeKind::Path ==> b.x0.key() <= f_add(w.x0, m.e).key() && f_add(
                w.x1,
                m.e,
            ).key() <= b.x1.key()
            &&& node.kind == NodeKind::Path ==> b.y0.key() <= f_add(w.y0, m.f).key() && f_add(
                w.y1,
                m.f,
            ).key() <= b.y1.key()
            &&& node.kind != NodeKind::Path && all ==> b.x0.key() <= m.e.key() <= b.x1.key()
            &&& node.kind != NodeKind::Path && all ==> b.y0.key() <= m.f.key() <= b.y1.key()
        }),
    decreases ids.len(),
{
    let less = ids.drop_last();
    lemma_box_of_numbers(nodes, less, all);
    if i < less.len() {
        law_artwork_is_in_its_box(nodes, less, all, i);
    }
}

proof fn lemma_box_of_numbers(nodes: Seq<Node>, ids: Seq<u128>, all: bool)
    ensures
        ({
            let b = artwork_box(nodes, ids, all);
            !b.x0.is_nan() && !b.y0.is_nan() && !b.x1.is_nan() && !b.y1.is_nan()
        }),
    decreases ids.len(),
{
    if ids.len() > 0 {
        lemma_box_of_numbers(nodes, ids.drop_last(), all);
    }
}

} // verus!
