//! Changing the colours of artwork: shifting them, blending them, and mapping them
//! to a palette.
use crate::bezier::ONE;
use crate::double::Double;
use crate::find_replace::is_in_range;
use crate::float::{
    abs, absolute, byte_of, clamped, divided, exact, f_abs, f_add, f_clamp, f_div, f_less, f_mul,
    f_narrow, f_neg, f_same, f_sqrt, f_sub, from_count, is_byte_of, lemma_narrow_positive,
    lemma_self_difference, lemma_whole, less, minus, narrowed, plus, same, times, whole,
    LEAST_NORMAL_SINGLE,
};
use crate::order::{comes_first, law_sorted, sort_indices, sorted_indices};
use crate::scene::{
    around_id, count_text, counted, entries_for, find_node, first_missing, found_positions, id_text,
    lemma_first_missing, one_entry, position_of, positions_found, Color, Fill, Node, NodeKind,
};
use crate::steps::{
    lemma_neg, lemma_nothing_times, lemma_one, lemma_plus_nothing, lemma_rounding_keeps_order,
    lemma_short_at_least, lemma_short_bounds, lemma_short_nothing, lemma_short_plus_nothing,
    lemma_short_zero, lemma_sum_commutes, lemma_sum_keeps_order, lemma_sum_value, lemma_times_one,
    lemma_zero_rounds, lemma_zero_value,
};
use crate::text::{chars_of, decimal_text, number_text, push_all, push_str, same_text, text_of};
use crate::typography::{quoted_name, quoted_text};
use vstd::prelude::*;

verus! {

/// The positions of all paths.
pub open spec fn path_positions(nodes: Seq<Node>, n: nat) -> Seq<usize>
    decreases n,
{
    if n == 0 {
        Seq::empty()
    } else {
        let before = path_positions(nodes, (n - 1) as nat);
        if nodes[n - 1].kind == NodeKind::Path {
            before.push((n - 1) as usize)
        } else {
            before
        }
    }
}

/// The paths that are recoloured: those with the given ids, or all.
pub open spec fn recolored(nodes: Seq<Node>, ids: Option<Seq<u128>>) -> Seq<usize> {
    match ids {
        Some(v) => found_positions(nodes, v, true),
        None => path_positions(nodes, nodes.len()),
    }
}

/// Whether there is anything to look at: nodes with the given ids, or paths.
pub open spec fn has_candidates(nodes: Seq<Node>, ids: Option<Seq<u128>>) -> bool {
    match ids {
        Some(v) => found_positions(nodes, v, false).len() > 0,
        None => path_positions(nodes, nodes.len()).len() > 0,
    }
}

pub open spec fn ids_view(ids: Option<Vec<u128>>) -> Option<Seq<u128>> {
    match ids {
        Some(v) => Some(v@),
        None => None,
    }
}

fn find_recolored(nodes: &Vec<Node>, ids: &Option<Vec<u128>>) -> (r: Vec<usize>)
    ensures
        r@ == recolored(nodes@, ids_view(*ids)),
        forall|i: int|
            0 <= i < r.len() ==> (#[trigger] r@[i]) < nodes.len() && nodes@[r@[i] as int].kind
                == NodeKind::Path,
{
    match ids {
        Some(v) => positions_found(nodes, v, true),
        None => {
            let mut out: Vec<usize> = Vec::new();
            let mut i: usize = 0;
            while i < nodes.len()
                invariant
                    i <= nodes.len(),
                    out@ == path_positions(nodes@, i as nat),
                    forall|i: int|
                        0 <= i < out.len() ==> (#[trigger] out@[i]) < nodes.len()
                            && nodes@[out@[i] as int].kind == NodeKind::Path,
                decreases nodes.len() - i,
            {
                if nodes[i].kind == NodeKind::Path {
                    out.push(i);
                }
                i += 1;
            }
            out
        },
    }
}

/// The paths whose colours change, how many entries this adds to the history, what is
/// said, and the name of the checkpoint where something changes.
#[derive(Debug)]
pub struct RecolorPlan {
    pub positions: Vec<usize>,
    pub entries: usize,
    pub message: String,
    pub checkpoint: Option<String>,
}

/// What a tool that recolours paths says.
pub struct RecolorTexts {
    pub nothing: Seq<char>,
    pub before: Seq<char>,
    pub behind: Seq<char>,
    pub checkpoint: Seq<char>,
}

pub open spec fn is_recolor_plan(
    nodes: Seq<Node>,
    ids: Option<Seq<u128>>,
    t: RecolorTexts,
    p: RecolorPlan,
) -> bool {
    let found = recolored(nodes, ids);
    &&& p.positions@ == found
    &&& p.entries == entries_for(found.len())
    &&& p.message@ == if !has_candidates(nodes, ids) {
        t.nothing
    } else if found.len() == 0 {
        "Selected nodes contain no path nodes."@
    } else {
        counted(t.before, found.len(), t.behind)
    }
    &&& match p.checkpoint {
        Some(c) => found.len() > 0 && c@ == counted(t.checkpoint, found.len(), " nodes)"@),
        None => found.len() == 0,
    }
}

proof fn lemma_paths_are_found(nodes: Seq<Node>, ids: Seq<u128>)
    ensures
        found_positions(nodes, ids, true).len() > 0 ==> found_positions(nodes, ids, false).len() > 0,
    decreases ids.len(),
{
    if ids.len() > 0 {
        lemma_paths_are_found(nodes, ids.drop_last());
    }
}

fn plan_recolor(
    nodes: &Vec<Node>,
    ids: &Option<Vec<u128>>,
    nothing: &str,
    before: &str,
    behind: &str,
    checkpoint: &str,
) -> (r: RecolorPlan)
    ensures
        is_recolor_plan(
            nodes@,
            ids_view(*ids),
            RecolorTexts {
                nothing: nothing@,
                before: before@,
                behind: behind@,
                checkpoint: checkpoint@,
            },
            r,
        ),
{
    let positions = find_recolored(nodes, ids);
    let any = match ids {
        Some(v) => positions_found(nodes, v, false).len() > 0,
        None => positions.len() > 0,
    };
    let n: usize = positions.len();
    proof {
        match ids {
            Some(v) => {
                lemma_paths_are_found(nodes@, v@);
            },
            None => {},
        }
    }
    let message = if !any {
        nothing.to_owned()
    } else if n == 0 {
        "Selected nodes contain no path nodes.".to_owned()
    } else {
        count_text(before, n, behind)
    };
    if n > 0 {
        let name = count_text(checkpoint, n, " nodes)");
        RecolorPlan { positions, entries: 1, message, checkpoint: Some(name) }
    } else {
        RecolorPlan { positions, entries: 0, message, checkpoint: None }
    }
}

/// The paths whose colours are inverted.
pub fn invert_colors(nodes: &Vec<Node>, ids: &Option<Vec<u128>>) -> (r: RecolorPlan)
    ensures
        is_recolor_plan(
            nodes@,
            ids_view(*ids),
            RecolorTexts {
                nothing: "No path nodes found to invert."@,
                before: "Inverted colors on "@,
                behind: " node(s)."@,
                checkpoint: "Invert colors ("@,
            },
            r,
        ),
{
    plan_recolor(
        nodes,
        ids,
        "No path nodes found to invert.",
        "Inverted colors on ",
        " node(s).",
        "Invert colors (",
    )
}

/// A channel of a pixel, inverted.
pub open spec fn inverted(x: Double) -> Double {
    f_narrow(f_sub(Double { bits: ONE }, x))
}

/// The inverted channels of a pixel of a pattern.
pub fn invert_pixel(p: (Double, Double, Double)) -> (r: (Double, Double, Double))
    ensures
        r == (inverted(p.0), inverted(p.1), inverted(p.2)),
        is_opposite_end(p.0, r.0) && is_opposite_end(p.1, r.1) && is_opposite_end(p.2, r.2),
{
    let one = Double { bits: ONE };
    proof {
        lemma_inverted_ends(p.0);
        lemma_inverted_ends(p.1);
        lemma_inverted_ends(p.2);
    }
    (narrowed(minus(one, p.0)), narrowed(minus(one, p.1)), narrowed(minus(one, p.2)))
}

/// The paths whose colours become grey.
pub fn convert_to_grayscale(nodes: &Vec<Node>, ids: &Option<Vec<u128>>) -> (r: RecolorPlan)
    ensures
        is_recolor_plan(
            nodes@,
            ids_view(*ids),
            RecolorTexts {
                nothing: "No path nodes found to convert."@,
                before: "Converted "@,
                behind: " node(s) to grayscale."@,
                checkpoint: "Convert to grayscale ("@,
            },
            r,
        ),
{
    plan_recolor(
        nodes,
        ids,
        "No path nodes found to convert.",
        "Converted ",
        " node(s) to grayscale.",
        "Convert to grayscale (",
    )
}

/// A channel shifted and kept from 0 to 1.
pub open spec fn shifted(x: Double, by: Double) -> Double {
    f_clamp(f_narrow(f_add(x, by)), Double { bits: 0 }, Double { bits: ONE })
}

pub open spec fn shifted_color(c: Color, by: Color) -> Color {
    Color {
        r: shifted(c.r, by.r),
        g: shifted(c.g, by.g),
        b: shifted(c.b, by.b),
        a: shifted(c.a, by.a),
    }
}

pub open spec fn shifted_colors(v: Seq<Color>, by: Color) -> Seq<Color> {
    Seq::new(v.len(), |i: int| shifted_color(v[i], by))
}

fn shift(x: Double, by: Double) -> (r: Double)
    ensures
        r == shifted(x, by),
{
    clamped(narrowed(plus(x, by)), Double { bits: 0 }, Double { bits: ONE })
}

/// A colour with every channel shifted.
pub fn shift_color(c: &Color, by: &Color) -> (r: Color)
    ensures
        r == shifted_color(*c, *by),
{
    Color {
        r: shift(c.r, by.r),
        g: shift(c.g, by.g),
        b: shift(c.b, by.b),
        a: shift(c.a, by.a),
    }
}

fn shift_all(v: &Vec<Color>, by: &Color) -> (r: Vec<Color>)
    ensures
        r@ == shifted_colors(v@, *by),
{
    let ghost goal = shifted_colors(v@, *by);
    let mut out: Vec<Color> = Vec::new();
    let mut i: usize = 0;
    while i < v.len()
        invariant
            i <= v.len(),
            goal == shifted_colors(v@, *by),
            out@ == goal.take(i as int),
        decreases v.len() - i,
    {
        out.push(shift_color(&v[i], by));
        i += 1;
        assert(out@ =~= goal.take(i as int));
    }
    assert(out@ =~= goal);
    out
}

/// A fill by its colours.
pub enum FillView {
    Solid(Color),
    Gradient(Seq<Color>),
    Fluid(Seq<Color>),
    Mesh(Seq<Color>),
    Other,
}

impl View for Fill {
    type V = FillView;

    open spec fn view(&self) -> FillView {
        match *self {
            Fill::Solid(c) => FillView::Solid(c),
            Fill::Gradient(v) => FillView::Gradient(v@),
            Fill::Fluid(v) => FillView::Fluid(v@),
            Fill::Mesh(v) => FillView::Mesh(v@),
            Fill::Other => FillView::Other,
        }
    }
}

/// A fill with all its colours shifted.
pub open spec fn shifted_fill(f: FillView, by: Color) -> FillView {
    match f {
        FillView::Solid(c) => FillView::Solid(shifted_color(c, by)),
        FillView::Gradient(v) => FillView::Gradient(shifted_colors(v, by)),
        FillView::Fluid(v) => FillView::Fluid(shifted_colors(v, by)),
        FillView::Mesh(v) => FillView::Mesh(shifted_colors(v, by)),
        FillView::Other => FillView::Other,
    }
}

/// A path whose colours are shifted.
#[derive(Debug)]
pub struct ShiftedPath {
    pub position: usize,
    pub fill: Fill,
    /// The colour of the stroke, where the stroke is on.
    pub stroke: Option<Color>,
}

pub open spec fn shifted_views(v: Seq<ShiftedPath>) -> Seq<(usize, FillView, Option<Color>)> {
    Seq::new(v.len(), |i: int| (v[i].position, v[i].fill@, v[i].stroke))
}

pub open spec fn shifted_path(nodes: Seq<Node>, k: usize, by: Color) -> (
    usize,
    FillView,
    Option<Color>,
) {
    let node = nodes[k as int];
    (
        k,
        shifted_fill(node.fill@, by),
        if node.stroke_enabled {
            Some(shifted_color(node.stroke_color, by))
        } else {
            None
        },
    )
}

#[derive(Debug)]
pub struct AdjustPlan {
    pub paths: Vec<ShiftedPath>,
    pub entries: usize,
    pub message: String,
    pub checkpoint: Option<String>,
}

pub open spec fn is_zero_shift(by: Color) -> bool {
    let zero = (Double { bits: 0 });
    f_same(by.r, zero) && f_same(by.g, zero) && f_same(by.b, zero) && f_same(by.a, zero)
}

/// The paths that are adjusted; none where nothing is shifted.
pub open spec fn adjusted(nodes: Seq<Node>, ids: Option<Seq<u128>>, by: Color) -> Seq<usize> {
    if is_zero_shift(by) {
        Seq::empty()
    } else {
        recolored(nodes, ids)
    }
}

/// Shifts the channels of all colours of paths by the channels of `by`.
pub fn adjust_colors(nodes: &Vec<Node>, ids: &Option<Vec<u128>>, by: &Color) -> (r: AdjustPlan)
    ensures
        ({
            let found = adjusted(nodes@, ids_view(*ids), *by);
            &&& shifted_views(r.paths@) == Seq::new(
                found.len(),
                |i: int| shifted_path(nodes@, found[i], *by),
            )
            &&& r.entries == entries_for(found.len())
            &&& r.message@ == if is_zero_shift(*by) {
                "No channel deltas specified; nothing to adjust."@
            } else if !has_candidates(nodes@, ids_view(*ids)) {
                "No path nodes found to adjust."@
            } else if found.len() == 0 {
                "Selected nodes contain no path nodes."@
            } else {
                counted("Adjusted colors on "@, found.len(), " node(s)."@)
            }
            &&& match r.checkpoint {
                Some(c) => found.len() > 0 && c@ == counted(
                    "Adjust colors ("@,
                    found.len(),
                    " nodes)"@,
                ),
                None => found.len() == 0,
            }
        }),
{
    let zero = Double { bits: 0 };
    let mut paths: Vec<ShiftedPath> = Vec::new();
    if same(by.r, zero) && same(by.g, zero) && same(by.b, zero) && same(by.a, zero) {
        assert(shifted_views(paths@) =~= Seq::new(
            0,
            |i: int|
                shifted_path(nodes@, adjusted(nodes@, ids_view(*ids), *by)[i], *by),
        ));
        return AdjustPlan {
            paths,
            entries: 0,
            message: "No channel deltas specified; nothing to adjust.".to_owned(),
            checkpoint: None,
        };
    }
    let plan = plan_recolor(
        nodes,
        ids,
        "No path nodes found to adjust.",
        "Adjusted colors on ",
        " node(s).",
        "Adjust colors (",
    );
    let found = find_recolored(nodes, ids);
    let ghost goal = Seq::new(found@.len(), |i: int| shifted_path(nodes@, found@[i], *by));
    let mut i: usize = 0;
    assert(shifted_views(paths@) =~= goal.take(0));
    while i < found.len()
        invariant
            i <= found.len(),
            forall|i: int|
                0 <= i < found.len() ==> (#[trigger] found@[i]) < nodes.len()
                    && nodes@[found@[i] as int].kind == NodeKind::Path,
            goal == Seq::new(found@.len(), |i: int| shifted_path(nodes@, found@[i], *by)),
            shifted_views(paths@) == goal.take(i as int),
        decreases found.len() - i,
    {
        let k: usize = found[i];
        let node = &nodes[k];
        let fill = match &node.fill {
            Fill::Solid(c) => Fill::Solid(shift_color(c, by)),
            Fill::Gradient(v) => Fill::Gradient(shift_all(v, by)),
            Fill::Fluid(v) => Fill::Fluid(shift_all(v, by)),
            Fill::Mesh(v) => Fill::Mesh(shift_all(v, by)),
            Fill::Other => Fill::Other,
        };
        let stroke = if node.stroke_enabled {
            Some(shift_color(&node.stroke_color, by))
        } else {
            None
        };
        let ghost before = paths@;
        paths.push(ShiftedPath { position: k, fill, stroke });
        i += 1;
        assert(shifted_views(paths@) =~= shifted_views(before).push(goal[i - 1]));
        assert(goal.take(i as int) =~= goal.take(i - 1).push(goal[i - 1]));
    }
    assert(shifted_views(paths@) =~= goal);
    AdjustPlan { paths, entries: plan.entries, message: plan.message, checkpoint: plan.checkpoint }
}

/// 255 as a number.
pub const TOP_BYTE: u64 = 0x406f_e000_0000_0000;

/// A byte as a channel from 0 to 1.
pub open spec fn channel_of(v: u8) -> Double {
    f_narrow(f_div(whole(v as nat), Double { bits: TOP_BYTE }))
}

/// `r` is the byte nearest to a channel from 0 to 1.
pub open spec fn is_channel_byte(x: Double, r: u8) -> bool {
    is_byte_of(f_narrow(f_mul(x, Double { bits: TOP_BYTE })), r)
}

/// The bytes of a pixel are those of its colour, shifted.
pub open spec fn is_shifted_pixel(p: (u8, u8, u8, u8), by: Color, r: (u8, u8, u8, u8)) -> bool {
    &&& is_channel_byte(shifted(channel_of(p.0), by.r), r.0)
    &&& is_channel_byte(shifted(channel_of(p.1), by.g), r.1)
    &&& is_channel_byte(shifted(channel_of(p.2), by.b), r.2)
    &&& is_channel_byte(shifted(channel_of(p.3), by.a), r.3)
}

fn shift_byte(v: u8, by: Double) -> (r: u8)
    ensures
        is_channel_byte(shifted(channel_of(v), by), r),
{
    let top = Double { bits: TOP_BYTE };
    let x = narrowed(divided(from_count(v as u64), top));
    byte_of(narrowed(times(shift(x, by), top)))
}

/// A pixel with every channel shifted.
pub fn shift_pixel(p: (u8, u8, u8, u8), by: &Color) -> (r: (u8, u8, u8, u8))
    ensures
        is_shifted_pixel(p, *by, r),
{
    (shift_byte(p.0, by.r), shift_byte(p.1, by.g), shift_byte(p.2, by.b), shift_byte(p.3, by.a))
}

/// What is said about the colours that were used last.
pub fn get_recent_colors(colors: &Vec<Color>) -> (r: String)
    ensures
        r@ == counted(""@, colors@.len(), " recent color(s)"@),
{
    count_text("", colors.len(), " recent color(s)")
}

/// How nodes are ordered for blending.
#[derive(Debug)]
pub struct BlendOrder {
    pub direction: Option<String>,
    /// The middle of each node, by position.
    pub centers_x: Vec<Double>,
    pub centers_y: Vec<Double>,
    /// The ids of all nodes of all layers, from the back to the front.
    pub depth: Vec<u128>,
}

pub open spec fn has_centers(order: BlendOrder, n: nat) -> bool {
    order.centers_x@.len() == n && order.centers_y@.len() == n
}

/// The last place of an id in the order of depth; 0 where it has none.
pub open spec fn depth_of(depth: Seq<u128>, id: u128, n: nat) -> nat
    decreases n,
{
    if n == 0 {
        0
    } else if depth[n - 1] == id {
        (n - 1) as nat
    } else {
        depth_of(depth, id, (n - 1) as nat)
    }
}

/// The place of `k` in a list that is sorted by whole numbers, stably.
pub open spec fn put_by_depth(sorted: Seq<usize>, keys: Seq<usize>, k: usize) -> Seq<usize>
    decreases sorted.len(),
{
    if sorted.len() > 0 && keys[k as int] < keys[sorted.last() as int] {
        put_by_depth(sorted.drop_last(), keys, k).push(sorted.last())
    } else {
        sorted.push(k)
    }
}

/// The first `n` indices sorted by whole numbers; equal ones keep their order.
pub open spec fn sorted_by_depth(keys: Seq<usize>, n: nat) -> Seq<usize>
    decreases n,
{
    if n == 0 {
        Seq::empty()
    } else {
        put_by_depth(sorted_by_depth(keys, (n - 1) as nat), keys, (n - 1) as usize)
    }
}

pub open spec fn is_direction(word: Seq<char>) -> bool {
    word == "horizontal"@ || word == "vertical"@ || word == "depth"@
}

/// The order in which the nodes at `places` are blended.
pub open spec fn blend_order(nodes: Seq<Node>, places: Seq<usize>, order: BlendOrder) -> Seq<usize> {
    match order.direction {
        None => places,
        Some(d) => {
            let sorted = if d@ == "horizontal"@ {
                sorted_indices(
                    Seq::new(places.len(), |i: int| order.centers_x@[places[i] as int]),
                    places.len(),
                )
            } else if d@ == "vertical"@ {
                sorted_indices(
                    Seq::new(places.len(), |i: int| order.centers_y@[places[i] as int]),
                    places.len(),
                )
            } else {
                sorted_by_depth(
                    Seq::new(
                        places.len(),
                        |i: int|
                            depth_of(
                                order.depth@,
                                nodes[places[i] as int].id,
                                order.depth@.len(),
                            ) as usize,
                    ),
                    places.len(),
                )
            };
            Seq::new(places.len(), |i: int| places[sorted[i] as int])
        },
    }
}

pub open spec fn places_of(nodes: Seq<Node>, ids: Seq<u128>) -> Seq<usize> {
    Seq::new(ids.len(), |i: int| position_of(nodes, ids[i]) as usize)
}

/// The first node that is not a path.
pub open spec fn first_other(nodes: Seq<Node>, ids: Seq<u128>, n: nat) -> Option<int>
    decreases n,
{
    if n == 0 {
        None
    } else {
        match first_other(nodes, ids, (n - 1) as nat) {
            Some(k) => Some(k),
            None => {
                let k = position_of(nodes, ids[n - 1]);
                if nodes[k].kind == NodeKind::Path {
                    None
                } else {
                    Some(k)
                }
            },
        }
    }
}

/// Why colours are not blended.
pub open spec fn blend_colors_error(nodes: Seq<Node>, ids: Seq<u128>, order: BlendOrder) -> Option<
    Seq<char>,
> {
    if ids.len() < 2 {
        Some("blend_colors requires at least 2 node_ids"@)
    } else {
        match first_missing(nodes, ids) {
            Some(id) => Some("Node "@ + id_text(id) + " not found"@),
            None => match first_other(nodes, ids, ids.len()) {
                Some(k) => Some(quoted_name("Node"@, nodes[k].name@, " is not a path node"@)),
                None => if order.direction matches Some(d) && !is_direction(d@) {
                    Some(
                        quoted_name(
                            "Unknown direction"@,
                            order.direction->0@,
                            "; use 'horizontal', 'vertical', or 'depth'"@,
                        ),
                    )
                } else {
                    let line = blend_order(nodes, places_of(nodes, ids), order);
                    if !(nodes[line[0] as int].fill is Solid) {
                        Some("First node must have a solid fill for blending"@)
                    } else if !(nodes[line.last() as int].fill is Solid) {
                        Some("Last node must have a solid fill for blending"@)
                    } else {
                        None
                    }
                },
            },
        }
    }
}

/// A channel between two others.
pub open spec fn between(a: Double, b: Double, t: Double) -> Double {
    f_narrow(f_add(a, f_narrow(f_mul(t, f_narrow(f_sub(b, a))))))
}

pub open spec fn color_between(a: Color, b: Color, t: Double) -> Color {
    Color {
        r: between(a.r, b.r, t),
        g: between(a.g, b.g, t),
        b: between(a.b, b.b, t),
        a: between(a.a, b.a, t),
    }
}

/// The share of step `i` of `n`.
pub open spec fn share_of(i: nat, n: nat) -> Double {
    f_narrow(f_div(f_narrow(whole(i)), f_narrow(whole(n))))
}

/// A path and its new colour.
#[derive(Debug, Clone, Copy, PartialEq, Eq, Structural)]
pub struct NewColor {
    pub position: usize,
    pub color: Color,
}

/// The new colour of node `i` of the line; the first and the last keep theirs.
pub open spec fn blended(nodes: Seq<Node>, line: Seq<usize>, i: int) -> NewColor {
    NewColor {
        position: line[i],
        color: color_between(
            nodes[line[0] as int].fill->Solid_0,
            nodes[line.last() as int].fill->Solid_0,
            share_of(i as nat, (line.len() - 1) as nat),
        ),
    }
}

#[derive(Debug)]
pub struct BlendColorsPlan {
    pub colors: Vec<NewColor>,
    pub start: Color,
    pub end: Color,
    pub count: usize,
    /// How many entries this adds to the history.
    pub entries: usize,
    pub message: String,
    /// The name of the checkpoint, where something changes.
    pub checkpoint: Option<String>,
}

fn blend_channel(a: Double, b: Double, t: Double) -> (r: Double)
    ensures
        r == between(a, b, t),
{
    narrowed(plus(a, narrowed(times(t, narrowed(minus(b, a))))))
}

/// A colour between two others.
pub fn blend_two(a: &Color, b: &Color, t: Double) -> (r: Color)
    ensures
        r == color_between(*a, *b, t),
{
    Color {
        r: blend_channel(a.r, b.r, t),
        g: blend_channel(a.g, b.g, t),
        b: blend_channel(a.b, b.b, t),
        a: blend_channel(a.a, b.a, t),
    }
}

fn find_depth(depth: &Vec<u128>, id: u128) -> (r: usize)
    ensures
        r == depth_of(depth@, id, depth@.len()),
{
    let mut n: usize = depth.len();
    while n > 0
        invariant
            n <= depth.len(),
            depth_of(depth@, id, depth@.len()) == depth_of(depth@, id, n as nat),
        decreases n,
    {
        if depth[n - 1] == id {
            return n - 1;
        }
        n -= 1;
    }
    0
}

proof fn lemma_put_by_depth(sorted: Seq<usize>, keys: Seq<usize>, k: usize)
    requires
        forall|i: int| 0 <= i < sorted.len() ==> (#[trigger] sorted[i]) < k,
    ensures
        put_by_depth(sorted, keys, k).len() == sorted.len() + 1,
        forall|i: int|
            0 <= i < sorted.len() + 1 ==> (#[trigger] put_by_depth(sorted, keys, k)[i]) <= k,
    decreases sorted.len(),
{
    if sorted.len() > 0 && keys[k as int] < keys[sorted.last() as int] {
        lemma_put_by_depth(sorted.drop_last(), keys, k);
        assert(sorted[sorted.len() - 1] < k);
    }
}

fn sort_by_depth(keys: &Vec<usize>) -> (r: Vec<usize>)
    ensures
        r@ == sorted_by_depth(keys@, keys@.len()),
        r.len() == keys.len(),
        forall|i: int| 0 <= i < r.len() ==> (#[trigger] r@[i]) < keys.len(),
{
    let mut out: Vec<usize> = Vec::new();
    let mut k: usize = 0;
    assert(keys.len() == keys@.len());
    while k < keys.len()
        invariant
            k <= keys.len(),
            out.len() == k,
            out@ == sorted_by_depth(keys@, k as nat),
            forall|i: int| 0 <= i < out.len() ==> (#[trigger] out@[i]) < k,
        decreases keys.len() - k,
    {
        let ghost start = out@;
        let mut n: usize = out.len();
        assert(start.take(n as int) =~= start);
        assert(put_by_depth(start, keys@, k) =~= put_by_depth(start.take(n as int), keys@, k)
            + start.skip(n as int));
        while n > 0 && keys[k] < keys[out[n - 1]]
            invariant
                n <= out.len(),
                k < keys.len(),
                out@ == start,
                forall|i: int| 0 <= i < start.len() ==> (#[trigger] start[i]) < k,
                put_by_depth(start, keys@, k) == put_by_depth(start.take(n as int), keys@, k)
                    + start.skip(n as int),
            decreases n,
        {
            proof {
                let here = start.take(n as int);
                assert(here.last() == start[n - 1]);
                assert(here.drop_last() =~= start.take(n - 1));
                let inner = put_by_depth(start.take(n - 1), keys@, k);
                assert(inner.push(start[n - 1]) + start.skip(n as int) =~= inner + start.skip(
                    n - 1,
                ));
            }
            n -= 1;
        }
        out.insert(n, k);
        proof {
            assert(out@ =~= start.take(n as int).push(k) + start.skip(n as int));
            if n > 0 {
                assert(start.take(n as int).last() == start[n - 1]);
            }
            lemma_put_by_depth(start, keys@, k);
            assert(out@ == put_by_depth(start, keys@, k));
        }
        k += 1;
    }
    out
}

fn order_line(nodes: &Vec<Node>, places: &Vec<usize>, order: &BlendOrder) -> (r: Vec<usize>)
    requires
        has_centers(*order, nodes@.len()),
        forall|i: int| 0 <= i < places.len() ==> (#[trigger] places@[i]) < nodes.len(),
        order.direction matches Some(d) ==> is_direction(d@),
    ensures
        r@ == blend_order(nodes@, places@, *order),
        r.len() == places.len(),
        forall|i: int| 0 <= i < r.len() ==> (#[trigger] r@[i]) < nodes.len(),
{
    let n: usize = places.len();
    let mut line: Vec<usize> = Vec::new();
    let d: &str = match &order.direction {
        None => {
            let mut i: usize = 0;
            while i < n
                invariant
                    i <= n,
                    n == places.len(),
                    line@ == places@.take(i as int),
                decreases n - i,
            {
                line.push(places[i]);
                i += 1;
                assert(line@ =~= places@.take(i as int));
            }
            assert(line@ =~= places@);
            return line;
        },
        Some(d) => d.as_str(),
    };
    let across = same_text(d, "horizontal");
    let down = same_text(d, "vertical");
    let sorted: Vec<usize> = if across || down {
        let centers = if across {
            &order.centers_x
        } else {
            &order.centers_y
        };
        let ghost goal = Seq::new(places@.len(), |i: int| centers@[places@[i] as int]);
        let mut keys: Vec<Double> = Vec::new();
        let mut i: usize = 0;
        while i < n
            invariant
                i <= n,
                n == places.len(),
                centers.len() == nodes.len(),
                forall|i: int| 0 <= i < places.len() ==> (#[trigger] places@[i]) < nodes.len(),
                goal == Seq::new(places@.len(), |i: int| centers@[places@[i] as int]),
                keys@ == goal.take(i as int),
            decreases n - i,
        {
            keys.push(centers[places[i]]);
            i += 1;
            assert(keys@ =~= goal.take(i as int));
        }
        assert(keys@ =~= goal);
        if across {
            assert(goal =~= Seq::new(
                places@.len(),
                |i: int| order.centers_x@[places@[i] as int],
            ));
        } else {
            assert(goal =~= Seq::new(
                places@.len(),
                |i: int| order.centers_y@[places@[i] as int],
            ));
        }
        sort_indices(&keys)
    } else {
        let ghost goal = Seq::new(
            places@.len(),
            |i: int|
                depth_of(
                    order.depth@,
                    nodes@[places@[i] as int].id,
                    order.depth@.len(),
                ) as usize,
        );
        let mut keys: Vec<usize> = Vec::new();
        let mut i: usize = 0;
        while i < n
            invariant
                i <= n,
                n == places.len(),
                forall|i: int| 0 <= i < places.len() ==> (#[trigger] places@[i]) < nodes.len(),
                goal == Seq::new(
                    places@.len(),
                    |i: int|
                        depth_of(
                            order.depth@,
                            nodes@[places@[i] as int].id,
                            order.depth@.len(),
                        ) as usize,
                ),
                keys@ == goal.take(i as int),
            decreases n - i,
        {
            keys.push(find_depth(&order.depth, nodes[places[i]].id));
            i += 1;
            assert(keys@ =~= goal.take(i as int));
        }
        assert(keys@ =~= goal);
        sort_by_depth(&keys)
    };
    let ghost goal = Seq::new(places@.len(), |i: int| places@[sorted@[i] as int]);
    let mut j: usize = 0;
    while j < n
        invariant
            j <= n,
            n == places.len(),
            n == sorted.len(),
            forall|i: int| 0 <= i < places.len() ==> (#[trigger] places@[i]) < nodes.len(),
            forall|i: int| 0 <= i < sorted.len() ==> (#[trigger] sorted@[i]) < n,
            goal == Seq::new(places@.len(), |i: int| places@[sorted@[i] as int]),
            line@ == goal.take(j as int),
            forall|i: int| 0 <= i < line.len() ==> (#[trigger] line@[i]) < nodes.len(),
        decreases n - j,
    {
        let k: usize = sorted[j];
        line.push(places[k]);
        j += 1;
        assert(line@ =~= goal.take(j as int));
    }
    assert(line@ =~= goal);
    line
}

fn find_paths(nodes: &Vec<Node>, ids: &Vec<u128>) -> (r: Result<Vec<usize>, String>)
    ensures
        match r {
            Ok(v) => {
                &&& first_missing(nodes@, ids@) is None
                &&& first_other(nodes@, ids@, ids@.len()) is None
                &&& v@ == places_of(nodes@, ids@)
                &&& forall|i: int| 0 <= i < v.len() ==> (#[trigger] v@[i]) < nodes.len()
            },
            Err(e) => match first_missing(nodes@, ids@) {
                Some(id) => e@ == "Node "@ + id_text(id) + " not found"@,
                None => first_other(nodes@, ids@, ids@.len()) matches Some(k) && e@
                    == quoted_name("Node"@, nodes@[k].name@, " is not a path node"@),
            },
        },
{
    let ghost goal = places_of(nodes@, ids@);
    let mut out: Vec<usize> = Vec::new();
    let mut i: usize = 0;
    assert(ids@.take(0) =~= Seq::<u128>::empty());
    while i < ids.len()
        invariant
            i <= ids.len(),
            goal == places_of(nodes@, ids@),
            first_missing(nodes@, ids@.take(i as int)) is None,
            out@ == goal.take(i as int),
            forall|i: int| 0 <= i < out.len() ==> (#[trigger] out@[i]) < nodes.len(),
            forall|j: int| 0 <= j < i ==> (#[trigger] out@[j]) == position_of(nodes@, ids@[j]),
        decreases ids.len() - i,
    {
        proof {
            assert(ids@.take(i + 1).drop_last() =~= ids@.take(i as int));
            assert(ids@.take(i + 1).last() == ids@[i as int]);
        }
        match find_node(nodes, ids[i]) {
            None => {
                proof {
                    lemma_first_missing(nodes@, ids@, i + 1);
                }
                return Err(around_id("Node ", ids[i], " not found"));
            },
            Some(k) => {
                out.push(k);
            },
        }
        i += 1;
        assert(out@ =~= goal.take(i as int));
    }
    assert(ids@.take(ids@.len() as int) =~= ids@);
    assert(out@ =~= goal);
    let mut j: usize = 0;
    while j < out.len()
        invariant
            j <= out.len(),
            out@ == places_of(nodes@, ids@),
            first_missing(nodes@, ids@) is None,
            first_other(nodes@, ids@, j as nat) is None,
            forall|i: int| 0 <= i < out.len() ==> (#[trigger] out@[i]) < nodes.len(),
            forall|i: int|
                0 <= i < ids.len() ==> (#[trigger] out@[i]) == position_of(nodes@, ids@[i]),
        decreases out.len() - j,
    {
        let k: usize = out[j];
        if nodes[k].kind != NodeKind::Path {
            proof {
                lemma_first_other(nodes@, ids@, (j + 1) as nat, ids@.len());
            }
            return Err(quoted_text("Node", nodes[k].name.as_str(), " is not a path node"));
        }
        j += 1;
    }
    Ok(out)
}

proof fn lemma_first_other(nodes: Seq<Node>, ids: Seq<u128>, i: nat, n: nat)
    requires
        i <= n,
        first_other(nodes, ids, i) is Some,
    ensures
        first_other(nodes, ids, n) == first_other(nodes, ids, i),
    decreases n,
{
    if i < n {
        lemma_first_other(nodes, ids, i, (n - 1) as nat);
    }
}

/// Gives the paths between the first and the last colours between theirs, evenly
/// spaced.
pub fn blend_colors(nodes: &Vec<Node>, ids: &Vec<u128>, order: &BlendOrder) -> (r: Result<
    BlendColorsPlan,
    String,
>)
    requires
        has_centers(*order, nodes@.len()),
    ensures
        match r {
            Err(e) => blend_colors_error(nodes@, ids@, *order) == Some(e@),
            Ok(p) => {
                let line = blend_order(nodes@, places_of(nodes@, ids@), *order);
                let n = ids@.len();
                &&& blend_colors_error(nodes@, ids@, *order) is None
                &&& p.colors@ == Seq::new(
                    (n - 2) as nat,
                    |i: int| blended(nodes@, line, i + 1),
                )
                &&& nodes@[line[0] as int].fill == Fill::Solid(p.start)
                &&& nodes@[line.last() as int].fill == Fill::Solid(p.end)
                &&& p.count == n
                &&& p.entries == entries_for((n - 2) as nat)
                &&& match p.checkpoint {
                    Some(c) => n > 2 && c@ == counted("Blend colors ("@, n, " nodes)"@),
                    None => n == 2,
                }
                &&& p.message@ == if n == 2 {
                    "No intermediate nodes to update (need at least 3 nodes to interpolate)."@
                } else {
                    "Blended colors across "@ + decimal_text(n) + " nodes ("@ + decimal_text(
                        (n - 2) as nat,
                    ) + " intermediate node(s) updated)."@
                }
            },
        },
{
    if ids.len() < 2 {
        return Err("blend_colors requires at least 2 node_ids".to_owned());
    }
    let places = match find_paths(nodes, ids) {
        Err(e) => {
            return Err(e);
        },
        Ok(v) => v,
    };
    if let Some(d) = &order.direction {
        if !(same_text(d.as_str(), "horizontal") || same_text(d.as_str(), "vertical")
            || same_text(d.as_str(), "depth")) {
            return Err(
                quoted_text(
                    "Unknown direction",
                    d.as_str(),
                    "; use 'horizontal', 'vertical', or 'depth'",
                ),
            );
        }
    }
    assert(places.len() == ids.len());
    let line = order_line(nodes, &places, order);
    let n: usize = line.len();
    let start = match &nodes[line[0]].fill {
        Fill::Solid(c) => *c,
        _ => {
            return Err("First node must have a solid fill for blending".to_owned());
        },
    };
    let end = match &nodes[line[n - 1]].fill {
        Fill::Solid(c) => *c,
        _ => {
            return Err("Last node must have a solid fill for blending".to_owned());
        },
    };
    let ghost goal = Seq::new((n - 2) as nat, |i: int| blended(nodes@, line@, i + 1));
    let mut colors: Vec<NewColor> = Vec::new();
    let mut i: usize = 1;
    while i < n - 1
        invariant
            1 <= i <= n - 1,
            n == line.len(),
            nodes@[line@[0] as int].fill == Fill::Solid(start),
            nodes@[line@.last() as int].fill == Fill::Solid(end),
            goal == Seq::new((n - 2) as nat, |i: int| blended(nodes@, line@, i + 1)),
            colors@ == goal.take(i - 1),
        decreases n - i,
    {
        proof {
            lemma_narrow_positive((n - 1) as nat);
        }
        let t = narrowed(
            divided(narrowed(from_count(i as u64)), narrowed(from_count((n - 1) as u64))),
        );
        colors.push(NewColor { position: line[i], color: blend_two(&start, &end, t) });
        i += 1;
        assert(colors@ =~= goal.take(i - 1));
    }
    assert(colors@ =~= goal);
    let message = if n == 2 {
        "No intermediate nodes to update (need at least 3 nodes to interpolate).".to_owned()
    } else {
        let mut v = chars_of("Blended colors across ");
        push_all(&mut v, &number_text(n as u64));
        push_str(&mut v, " nodes (");
        push_all(&mut v, &number_text((n - 2) as u64));
        push_str(&mut v, " intermediate node(s) updated).");
        text_of(&v)
    };
    let checkpoint = if n > 2 {
        Some(count_text("Blend colors (", n, " nodes)"))
    } else {
        None
    };
    Ok(
        BlendColorsPlan {
            entries: one_entry(n - 2),
            colors,
            start,
            end,
            count: n,
            message,
            checkpoint,
        },
    )
}

/// 1e-6 of the binary32 format as a number.
pub const SAME_CHANNEL: u64 = 0x3eb0_c6f7_a000_0000;

/// How far two colours are apart: the sum of the squares, without the opacity.
pub open spec fn distance(a: Color, b: Color) -> Double {
    let dr = f_narrow(f_sub(a.r, b.r));
    let dg = f_narrow(f_sub(a.g, b.g));
    let db = f_narrow(f_sub(a.b, b.b));
    f_narrow(
        f_add(
            f_narrow(f_add(f_narrow(f_mul(dr, dr)), f_narrow(f_mul(dg, dg)))),
            f_narrow(f_mul(db, db)),
        ),
    )
}

/// The index of the first of the nearest among the first `n` colours of a palette.
pub open spec fn nearest_index(c: Color, palette: Seq<Color>, n: nat) -> int
    decreases n,
{
    if n <= 1 {
        0
    } else {
        let best = nearest_index(c, palette, (n - 1) as nat);
        if f_less(distance(c, palette[n - 1]), distance(c, palette[best])) {
            n - 1
        } else {
            best
        }
    }
}

/// Nearly the same channel.
pub open spec fn is_near(a: Double, b: Double) -> bool {
    f_less(f_abs(f_narrow(f_sub(a, b))), Double { bits: SAME_CHANNEL })
}

/// The new colour of a path; none where it has no solid fill that is on, or has the
/// colour already.
pub open spec fn mapped_color(node: Node, palette: Seq<Color>) -> Option<Color> {
    if node.kind != NodeKind::Path || !node.fill_enabled {
        None
    } else {
        match node.fill {
            Fill::Solid(c) => {
                let t = palette[nearest_index(c, palette, palette.len())];
                if is_near(c.r, t.r) && is_near(c.g, t.g) && is_near(c.b, t.b) {
                    None
                } else {
                    Some(t)
                }
            },
            _ => None,
        }
    }
}

/// The new colours of the first `n` nodes.
pub open spec fn mapped_colors(
    nodes: Seq<Node>,
    found: Seq<usize>,
    palette: Seq<Color>,
    n: nat,
) -> Seq<NewColor>
    decreases n,
{
    if n == 0 {
        Seq::empty()
    } else {
        let before = mapped_colors(nodes, found, palette, (n - 1) as nat);
        match mapped_color(nodes[found[n - 1] as int], palette) {
            Some(color) => before.push(NewColor { position: found[n - 1], color }),
            None => before,
        }
    }
}

/// A colour of a palette: how it is written, and what it stands for.
#[derive(Debug)]
pub struct PaletteColor {
    pub text: String,
    pub color: Option<Color>,
}

/// The first colour that could not be read.
pub open spec fn first_unread(palette: Seq<PaletteColor>, n: nat) -> Option<Seq<char>>
    decreases n,
{
    if n == 0 {
        None
    } else {
        match first_unread(palette, (n - 1) as nat) {
            Some(t) => Some(t),
            None => if palette[n - 1].color is None {
                Some(palette[n - 1].text@)
            } else {
                None
            },
        }
    }
}

pub open spec fn palette_colors(palette: Seq<PaletteColor>) -> Seq<Color> {
    Seq::new(palette.len(), |i: int| palette[i].color->0)
}

/// The nodes that are looked at: those with the given ids, or all.
pub open spec fn artwork(nodes: Seq<Node>, ids: Seq<u128>) -> Seq<usize> {
    if ids.len() == 0 {
        Seq::new(nodes.len(), |i: int| i as usize)
    } else {
        found_positions(nodes, ids, false)
    }
}

/// Why artwork is not recoloured.
pub open spec fn artwork_error(
    nodes: Seq<Node>,
    ids: Seq<u128>,
    palette: Seq<PaletteColor>,
) -> Option<Seq<char>> {
    if palette.len() == 0 {
        Some("palette must contain at least one color"@)
    } else {
        match first_unread(palette, palette.len()) {
            Some(t) => Some(quoted_name("Invalid palette color:"@, t, ""@)),
            None => match first_missing(nodes, ids) {
                Some(id) => Some("Node "@ + id_text(id) + " not found"@),
                None => None,
            },
        }
    }
}

#[derive(Debug)]
pub struct ArtworkPlan {
    pub colors: Vec<NewColor>,
    /// How many entries this adds to the history.
    pub entries: usize,
    pub message: String,
}

fn find_distance(a: &Color, b: &Color) -> (r: Double)
    ensures
        r == distance(*a, *b),
{
    let dr = narrowed(minus(a.r, b.r));
    let dg = narrowed(minus(a.g, b.g));
    let db = narrowed(minus(a.b, b.b));
    narrowed(
        plus(
            narrowed(plus(narrowed(times(dr, dr)), narrowed(times(dg, dg)))),
            narrowed(times(db, db)),
        ),
    )
}

fn find_nearest(c: &Color, palette: &Vec<Color>) -> (r: usize)
    requires
        palette.len() > 0,
    ensures
        r == nearest_index(*c, palette@, palette@.len()),
        r < palette.len(),
{
    let mut best: usize = 0;
    let mut i: usize = 1;
    while i < palette.len()
        invariant
            1 <= i <= palette.len(),
            best < i,
            best == nearest_index(*c, palette@, i as nat),
        decreases palette.len() - i,
    {
        if less(find_distance(c, &palette[i]), find_distance(c, &palette[best])) {
            best = i;
        }
        i += 1;
    }
    best
}

fn near(a: Double, b: Double) -> (r: bool)
    ensures
        r == is_near(a, b),
{
    less(absolute(narrowed(minus(a, b))), Double { bits: SAME_CHANNEL })
}

proof fn lemma_first_unread(palette: Seq<PaletteColor>, i: nat, n: nat)
    requires
        i <= n,
        first_unread(palette, i) is Some,
    ensures
        first_unread(palette, n) == first_unread(palette, i),
    decreases n,
{
    if i < n {
        lemma_first_unread(palette, i, (n - 1) as nat);
    }
}

fn read_palette(palette: &Vec<PaletteColor>) -> (r: Result<Vec<Color>, String>)
    ensures
        match r {
            Ok(v) => first_unread(palette@, palette@.len()) is None && v@ == palette_colors(
                palette@,
            ),
            Err(e) => first_unread(palette@, palette@.len()) matches Some(t) && e@ == quoted_name(
                "Invalid palette color:"@,
                t,
                ""@,
            ),
        },
{
    let mut out: Vec<Color> = Vec::new();
    let mut i: usize = 0;
    while i < palette.len()
        invariant
            i <= palette.len(),
            first_unread(palette@, i as nat) is None,
            out@ == palette_colors(palette@).take(i as int),
        decreases palette.len() - i,
    {
        match palette[i].color {
            None => {
                proof {
                    lemma_first_unread(palette@, (i + 1) as nat, palette@.len());
                }
                return Err(quoted_text("Invalid palette color:", palette[i].text.as_str(), ""));
            },
            Some(c) => {
                out.push(c);
            },
        }
        i += 1;
        assert(out@ =~= palette_colors(palette@).take(i as int));
    }
    assert(out@ =~= palette_colors(palette@));
    Ok(out)
}

fn find_artwork(nodes: &Vec<Node>, ids: &Vec<u128>) -> (r: Result<Vec<usize>, String>)
    ensures
        match r {
            Ok(v) => {
                &&& first_missing(nodes@, ids@) is None
                &&& v@ == artwork(nodes@, ids@)
                &&& forall|i: int| 0 <= i < v.len() ==> (#[trigger] v@[i]) < nodes.len()
            },
            Err(e) => first_missing(nodes@, ids@) matches Some(id) && e@ == "Node "@ + id_text(id)
                + " not found"@,
        },
{
    let mut i: usize = 0;
    assert(ids@.take(0) =~= Seq::<u128>::empty());
    while i < ids.len()
        invariant
            i <= ids.len(),
            first_missing(nodes@, ids@.take(i as int)) is None,
        decreases ids.len() - i,
    {
        proof {
            assert(ids@.take(i + 1).drop_last() =~= ids@.take(i as int));
            assert(ids@.take(i + 1).last() == ids@[i as int]);
        }
        if find_node(nodes, ids[i]).is_none() {
            proof {
                lemma_first_missing(nodes@, ids@, i + 1);
            }
            return Err(around_id("Node ", ids[i], " not found"));
        }
        i += 1;
    }
    assert(ids@.take(ids@.len() as int) =~= ids@);
    if ids.len() > 0 {
        return Ok(positions_found(nodes, ids, false));
    }
    let ghost goal = artwork(nodes@, ids@);
    let mut out: Vec<usize> = Vec::new();
    let mut k: usize = 0;
    while k < nodes.len()
        invariant
            k <= nodes.len(),
            goal == Seq::new(nodes@.len(), |i: int| i as usize),
            out@ == goal.take(k as int),
            forall|i: int| 0 <= i < out.len() ==> (#[trigger] out@[i]) < nodes.len(),
        decreases nodes.len() - k,
    {
        out.push(k);
        k += 1;
        assert(out@ =~= goal.take(k as int));
    }
    assert(out@ =~= goal);
    Ok(out)
}

/// Gives every path with a solid fill the nearest colour of a palette.
pub fn recolor_artwork(nodes: &Vec<Node>, ids: &Vec<u128>, palette: &Vec<PaletteColor>) -> (r:
    Result<ArtworkPlan, String>)
    ensures
        match r {
            Err(e) => artwork_error(nodes@, ids@, palette@) == Some(e@),
            Ok(p) => {
                let found = artwork(nodes@, ids@);
                &&& artwork_error(nodes@, ids@, palette@) is None
                &&& p.colors@ == mapped_colors(
                    nodes@,
                    found,
                    palette_colors(palette@),
                    found.len(),
                )
                &&& p.entries == entries_for(p.colors@.len())
                &&& p.message@ == if p.colors@.len() == 0 {
                    "No fills were remapped — all colors already in palette or no solid fills found"@
                } else {
                    counted(
                        "Recolored "@,
                        p.colors@.len(),
                        " node(s) to nearest palette colors"@,
                    )
                }
            },
        },
{
    if palette.len() == 0 {
        return Err("palette must contain at least one color".to_owned());
    }
    let choices = match read_palette(palette) {
        Err(e) => {
            return Err(e);
        },
        Ok(v) => v,
    };
    let found = match find_artwork(nodes, ids) {
        Err(e) => {
            return Err(e);
        },
        Ok(v) => v,
    };
    let mut colors: Vec<NewColor> = Vec::new();
    let mut i: usize = 0;
    while i < found.len()
        invariant
            i <= found.len(),
            choices.len() > 0,
            forall|i: int| 0 <= i < found.len() ==> (#[trigger] found@[i]) < nodes.len(),
            colors@ == mapped_colors(nodes@, found@, choices@, i as nat),
        decreases found.len() - i,
    {
        let k: usize = found[i];
        let node = &nodes[k];
        if node.kind == NodeKind::Path && node.fill_enabled {
            if let Fill::Solid(c) = &node.fill {
                let t = choices[find_nearest(c, &choices)];
                if !(near(c.r, t.r) && near(c.g, t.g) && near(c.b, t.b)) {
                    colors.push(NewColor { position: k, color: t });
                }
            }
        }
        i += 1;
    }
    let message = if colors.len() == 0 {
        "No fills were remapped — all colors already in palette or no solid fills found".to_owned()
    } else {
        count_text("Recolored ", colors.len(), " node(s) to nearest palette colors")
    };
    Ok(ArtworkPlan { entries: one_entry(colors.len()), colors, message })
}

/// No colour of the palette is nearer than the one that is chosen, where no distance
/// is NaN.
pub proof fn law_chosen_is_nearest(c: Color, palette: Seq<Color>, n: nat, i: int)
    requires
        0 < n <= palette.len(),
        0 <= i < n,
        forall|j: int| 0 <= j < n ==> !distance(c, #[trigger] palette[j]).is_nan(),
    ensures
        0 <= nearest_index(c, palette, n) < n,
        distance(c, palette[nearest_index(c, palette, n)]).key() <= distance(c, palette[i]).key(),
    decreases n,
{
    if n > 1 {
        let m = (n - 1) as nat;
        if i < m {
            law_chosen_is_nearest(c, palette, m, i);
        } else {
            law_chosen_is_nearest(c, palette, m, 0);
        }
        let best = nearest_index(c, palette, m);
        assert(!distance(c, palette[best]).is_nan());
        assert(!distance(c, palette[n - 1]).is_nan());
    }
}


/// Where the one channel is full, the other one is empty, and the other way round.
pub open spec fn is_opposite_end(x: Double, y: Double) -> bool {
    &&& x.key() == 0 ==> y.bits == ONE
    &&& x.bits == ONE ==> y.key() == 0
}

proof fn lemma_inverted_ends(x: Double)
    ensures
        is_opposite_end(x, inverted(x)),
{
    let one = (Double { bits: ONE });
    lemma_one();
    if x.key() == 0 {
        lemma_neg(x);
        lemma_plus_nothing(one, f_neg_of(x));
        assert(f_narrow(one) == one);
    }
    if x == one {
        lemma_self_difference(one);
        lemma_short_zero(f_sub(one, one));
    }
}

spec fn f_neg_of(x: Double) -> Double {
    f_neg(x)
}

/// The same colour with two channels exchanged: red and green, green and blue, or blue and
/// the opacity.
pub open spec fn exchanged(c: Color, which: int) -> Color {
    if which == 0 {
        Color { r: c.g, g: c.r, ..c }
    } else if which == 1 {
        Color { g: c.b, b: c.g, ..c }
    } else {
        Color { b: c.a, a: c.b, ..c }
    }
}

/// The same pixel with two channels exchanged.
pub open spec fn exchanged_bytes(p: (u8, u8, u8, u8), which: int) -> (u8, u8, u8, u8) {
    if which == 0 {
        (p.1, p.0, p.2, p.3)
    } else if which == 1 {
        (p.0, p.2, p.1, p.3)
    } else {
        (p.0, p.1, p.3, p.2)
    }
}

/// No channel is treated otherwise than the next one: exchanging two channels of what goes in
/// exchanges those of what comes out. So each channel is shifted by its own shift, and is
/// blended with the same channel of the other colour.
pub proof fn law_channels_are_treated_alike(a: Color, b: Color, t: Double, which: int)
    ensures
        shifted_color(exchanged(a, which), exchanged(b, which)) == exchanged(
            shifted_color(a, b),
            which,
        ),
        color_between(exchanged(a, which), exchanged(b, which), t) == exchanged(
            color_between(a, b, t),
            which,
        ),
{
}

/// The channels of a pixel are treated alike too.
pub proof fn law_pixel_channels_are_treated_alike(
    p: (u8, u8, u8, u8),
    by: Color,
    r: (u8, u8, u8, u8),
    which: int,
)
    ensures
        is_shifted_pixel(p, by, r) <==> is_shifted_pixel(
            exchanged_bytes(p, which),
            exchanged(by, which),
            exchanged_bytes(r, which),
        ),
{
}

/// A channel that is shifted by nothing stays, more of a shift makes no less of it, and it is
/// never below 0 or above 1.
pub proof fn law_shift_moves_channels(x: Double, by: Double, more: Double)
    requires
        x.wf(),
        by.wf(),
        more.wf(),
        by.key() <= more.key(),
    ensures
        x.bits <= ONE && f_narrow(x) == x && by.key() == 0 ==> shifted(x, by).key() == x.key(),
        0 <= shifted(x, by).key() <= ONE,
{
    let zero = (Double { bits: 0 });
    let one = (Double { bits: ONE });
    if by.key() == 0 && f_narrow(x) == x {
        lemma_short_plus_nothing(x, by);
    }
    lemma_sum_value(x, by);
    let s = f_narrow(f_add(x, by));
    assert(!s.is_nan()) by {
        lemma_narrow_is_number(f_add(x, by));
    }
}

proof fn lemma_narrow_is_number(x: Double)
    requires
        !x.is_nan(),
    ensures
        !f_narrow(x).is_nan(),
{
    if x.magnitude() < LEAST_NORMAL_SINGLE {
        lemma_short_bounds(x, 0x39f8_0000_0000_0000);
    } else {
        lemma_short_at_least(x, LEAST_NORMAL_SINGLE as nat);
    }
}

/// A blend starts at the one colour, leaves what both colours have in common, and goes all
/// the way to the other one: from nothing it ends at that.
pub proof fn law_blend_goes_from_one_to_the_other(a: Double, b: Double, t: Double)
    requires
        a.wf(),
        b.wf(),
        t.wf(),
        f_narrow(a) == a,
        f_narrow(b) == b,
        f_narrow(f_sub(b, a)).wf(),
    ensures
        t.key() == 0 ==> between(a, b, t).key() == a.key(),
        a == b ==> between(a, b, t).key() == a.key(),
        a.key() == 0 && t == whole(1) ==> between(a, b, t).key() == b.key(),
{
    lemma_one();
    let d = f_narrow(f_sub(b, a));
    if t.key() == 0 {
        lemma_nothing_times(t, d);
        lemma_short_zero(f_mul(t, d));
        lemma_short_plus_nothing(a, f_narrow(f_mul(t, d)));
    }
    if a == b {
        lemma_self_difference(a);
        lemma_short_zero(f_sub(a, a));
        lemma_nothing_times(d, t);
        lemma_short_zero(f_mul(t, d));
        lemma_short_plus_nothing(a, f_narrow(f_mul(t, d)));
    }
    if a.key() == 0 && t == whole(1) {
        lemma_neg(a);
        lemma_short_plus_nothing(b, f_neg_of(a));
        lemma_times_one(d);
        assert(d.key() == b.key());
        lemma_plus_nothing(d, a);
        if d.key() == 0 {
            lemma_short_zero(d);
            lemma_short_plus_nothing_of(a, f_narrow(d));
        } else {
            assert(d == b) by {
                lemma_plus_nothing(b, f_neg_of(a));
            }
        }
    }
}

proof fn lemma_short_plus_nothing_of(a: Double, z: Double)
    requires
        a.wf(),
        a.key() == 0,
        z.key() == 0,
    ensures
        f_narrow(f_add(a, z)).key() == 0,
{
    lemma_plus_nothing(a, z);
    lemma_short_zero(f_add(a, z));
}

/// The first node of a blend keeps its colour.
pub proof fn law_blend_starts_at_the_first_node(nodes: Seq<Node>, line: Seq<usize>)
    requires
        line.len() >= 2,
        nodes[line[0] as int].fill is Solid,
        nodes[line.last() as int].fill is Solid,
        is_short_color(nodes[line[0] as int].fill->Solid_0),
        is_short_color(nodes[line.last() as int].fill->Solid_0),
    ensures
        ({
            let c = blended(nodes, line, 0).color;
            let first = nodes[line[0] as int].fill->Solid_0;
            &&& blended(nodes, line, 0).position == line[0]
            &&& c.r.key() == first.r.key() && c.g.key() == first.g.key()
            &&& c.b.key() == first.b.key() && c.a.key() == first.a.key()
        }),
{
    let a = nodes[line[0] as int].fill->Solid_0;
    let b = nodes[line.last() as int].fill->Solid_0;
    let n = (line.len() - 1) as nat;
    lemma_share_starts(n);
    let t = share_of(0, n);
    lemma_short_difference(a.r, b.r);
    lemma_short_difference(a.g, b.g);
    lemma_short_difference(a.b, b.b);
    lemma_short_difference(a.a, b.a);
    law_blend_goes_from_one_to_the_other(a.r, b.r, t);
    law_blend_goes_from_one_to_the_other(a.g, b.g, t);
    law_blend_goes_from_one_to_the_other(a.b, b.b, t);
    law_blend_goes_from_one_to_the_other(a.a, b.a, t);
}

/// A colour of the binary32 format with all channels from 0 to 1.
pub open spec fn is_short_color(c: Color) -> bool {
    &&& is_in_range(c) && c.a.bits <= ONE
    &&& f_narrow(c.r) == c.r && f_narrow(c.g) == c.g && f_narrow(c.b) == c.b && f_narrow(c.a)
        == c.a
}

proof fn lemma_short_difference(a: Double, b: Double)
    requires
        a.bits <= ONE,
        b.bits <= ONE,
    ensures
        f_narrow(f_sub(b, a)).wf(),
{
    let one = (Double { bits: ONE });
    lemma_one();
    lemma_neg(a);
    let m = f_neg_of(a);
    let zero = (Double { bits: 0 });
    lemma_sum_keeps_order(zero, b, m);
    lemma_sum_keeps_order(b, one, m);
    lemma_plus_nothing(m, zero);
    lemma_sum_commutes(one, m);
    lemma_sum_keeps_order(m, zero, one);
    lemma_plus_nothing(one, zero);
    let d = f_sub(b, a);
    assert(-(ONE as int) <= d.key() <= ONE as int);
    lemma_short_bounds(d, ONE as nat);
}

proof fn lemma_share_starts(n: nat)
    requires
        n > 0,
    ensures
        share_of(0, n).key() == 0,
        share_of(0, n).wf(),
{
    lemma_whole(0);
    lemma_short_zero(whole(0));
    lemma_narrow_positive(n);
    let z = f_narrow(whole(0));
    let d = f_narrow(whole(n));
    lemma_rounding_keeps_order(n as int, n as int, 1);
    lemma_narrow_is_number(whole(n));
    assert(f_div(z, d).key() == 0) by {
        lemma_zero_value(z);
        reveal(f_div);
        if d.wf() {
            lemma_zero_value(d);
            lemma_zero_rounds(abs(exact(d)));
        }
    }
    lemma_short_zero(f_div(z, d));
}

/// The colour of a palette that another one is mapped to is among the nearest: none of the
/// palette is nearer, and none of those before it is as near.
pub proof fn law_nearest_is_nearest(c: Color, palette: Seq<Color>, n: nat, k: int)
    requires
        0 <= k < n <= palette.len(),
        forall|i: int| 0 <= i < n ==> !(#[trigger] distance(c, palette[i])).is_nan(),
    ensures
        ({
            let at = nearest_index(c, palette, n);
            &&& 0 <= at < n
            &&& distance(c, palette[at]).key() <= distance(c, palette[k]).key()
            &&& k < at ==> distance(c, palette[at]).key() < distance(c, palette[k]).key()
        }),
    decreases n,
{
    if n > 1 {
        law_nearest_is_nearest(
            c,
            palette,
            (n - 1) as nat,
            if k < n - 1 {
                k
            } else {
                0
            },
        );
        let best = nearest_index(c, palette, (n - 1) as nat);
        assert(!distance(c, palette[best]).is_nan());
        assert(!distance(c, palette[n - 1]).is_nan());
        assert(!distance(c, palette[k]).is_nan());
    }
}

/// The squared distance counts every channel: it is the one whose mean has the distance that
/// colours are compared by as its root.
pub proof fn law_distances_agree(a: Color, b: Color)
    ensures
        crate::find_replace::color_gap(a, b) == f_narrow(
            f_sqrt(
                f_narrow(f_div(distance(a, b), Double { bits: crate::find_replace::THREE })),
            ),
        ),
{
}

/// What is mapped to a palette becomes one of its colours, and only where it was not that
/// colour already.
pub proof fn law_mapped_colors_are_of_the_palette(node: Node, palette: Seq<Color>)
    requires
        palette.len() > 0,
        node.fill is Solid,
        forall|i: int|
            0 <= i < palette.len() ==> !(#[trigger] distance(
                node.fill->Solid_0,
                palette[i],
            )).is_nan(),
    ensures
        mapped_color(node, palette) matches Some(t) ==> palette.contains(t) && !(t.r
            == node.fill->Solid_0.r && t.g == node.fill->Solid_0.g && t.b == node.fill->Solid_0.b
            && t.r.wf() && t.g.wf() && t.b.wf()),
        !node.fill_enabled ==> mapped_color(node, palette) is None,
{
    let c = node.fill->Solid_0;
    law_nearest_is_nearest(c, palette, palette.len(), 0);
    lemma_self_difference(c.r);
    lemma_self_difference(c.g);
    lemma_self_difference(c.b);
    lemma_short_nothing();
}

/// Nodes are blended from left to right, or from top to bottom, by where their middles are.
pub proof fn law_blend_follows_its_direction(
    nodes: Seq<Node>,
    places: Seq<usize>,
    order: BlendOrder,
    a: int,
    b: int,
)
    requires
        0 <= a < b < places.len(),
        places.len() <= usize::MAX,
        forall|i: int|
            0 <= i < places.len() ==> !order.centers_x@[(#[trigger] places[i]) as int].is_nan()
                && !order.centers_y@[places[i] as int].is_nan(),
    ensures
        ({
            let line = blend_order(nodes, places, order);
            &&& line.len() == places.len()
            &&& order.direction is Some && order.direction->0@ == "horizontal"@
                ==> order.centers_x@[line[a] as int].key() <= order.centers_x@[line[b] as int].key()
            &&& order.direction is Some && order.direction->0@ == "vertical"@
                ==> order.centers_y@[line[a] as int].key() <= order.centers_y@[line[b] as int].key()
            &&& order.direction is None ==> line == places
        }),
{
    reveal_strlit("horizontal");
    reveal_strlit("vertical");
    assert("horizontal"@.len() != "vertical"@.len());
    let xs = Seq::new(places.len(), |i: int| order.centers_x@[places[i] as int]);
    let ys = Seq::new(places.len(), |i: int| order.centers_y@[places[i] as int]);
    assert forall|i: int| 0 <= i < xs.len() implies !(#[trigger] xs[i]).is_nan() by {
        let p = places[i];
    }
    assert forall|i: int| 0 <= i < ys.len() implies !(#[trigger] ys[i]).is_nan() by {
        let p = places[i];
    }
    law_sorted(xs, places.len());
    law_sorted(ys, places.len());
    let sx = sorted_indices(xs, places.len());
    let sy = sorted_indices(ys, places.len());
    assert(sx[a] < places.len() && sx[b] < places.len());
    assert(sy[a] < places.len() && sy[b] < places.len());
    assert(comes_first(xs, sx[a], sx[b]));
    assert(comes_first(ys, sy[a], sy[b]));
}


/// The fill and the stroke of a path are shifted alike, every colour of a fill by the same
/// shift, and a path without a stroke gets none.
pub proof fn law_all_colors_are_shifted(nodes: Seq<Node>, k: usize, by: Color, i: int)
    ensures
        ({
            let node = nodes[k as int];
            let s = shifted_path(nodes, k, by);
            &&& s.0 == k
            &&& s.2 is Some <==> node.stroke_enabled
            &&& node.stroke_enabled && node.fill == Fill::Solid(node.stroke_color) ==> s.1
                == FillView::Solid(s.2->0)
            &&& node.fill@ matches FillView::Gradient(v) ==> (s.1 matches FillView::Gradient(w)
                && w.len() == v.len() && (0 <= i < v.len() ==> w[i] == shifted_color(v[i], by)))
            &&& node.fill@ matches FillView::Mesh(v) ==> (s.1 matches FillView::Mesh(w) && w.len()
                == v.len() && (0 <= i < v.len() ==> w[i] == shifted_color(v[i], by)))
            &&& node.fill@ matches FillView::Fluid(v) ==> (s.1 matches FillView::Fluid(w)
                && w.len() == v.len() && (0 <= i < v.len() ==> w[i] == shifted_color(v[i], by)))
        }),
{
}

} // verus!
