//! Aligning, distributing and laying out nodes by their boxes in the world.
use crate::bezier::{world_bounds, world_box, Bounds, TINY};
use crate::bignum::{lemma_power_positive, power};
use crate::copies::lemma_whole_share;
use crate::decimal::{show_number, shown};
use crate::double::{Double, INFINITE, SIGN};
use crate::float::{
    abs, absolute, divided, exact, f_abs, f_add, f_div, f_less, f_max, f_min, f_mul, f_sub,
    from_count, half, halved, infinity, lemma_positive, lemma_self_difference, lemma_whole, less,
    maximum, minimum, minus, one_units, plus, times, whole,
};
use crate::scene::{find_node, has_node, id_text, is_node_at, position_of, push_id, Node};
use crate::steps::{
    is_multiple, is_plain, lemma_add, lemma_difference_of_steps, lemma_finer, lemma_half_of_steps,
    lemma_middle_of_cell, lemma_next_column, lemma_next_row, lemma_one, lemma_order,
    lemma_place_bounds, lemma_plain, lemma_share_of_steps, lemma_steps, lemma_sum_of_steps,
    lemma_times, lemma_times_steps, lemma_zero_value, steps,
};
use crate::text::{chars_of, decimal_text, number_text, push_all, push_str, text_of};
use crate::typography::{quoted_name, quoted_text};
use vstd::prelude::*;

verus! {

/// A node and its box in the world.
#[derive(Debug, Clone, Copy, PartialEq, Eq, Structural)]
pub struct Boxed {
    pub position: usize,
    pub bounds: Bounds,
}

/// A node that is moved from where it was.
#[derive(Debug, Clone, Copy, PartialEq, Eq, Structural)]
pub struct Move {
    pub position: usize,
    pub dx: Double,
    pub dy: Double,
}

/// The moves, how many entries they add to the history, and what is said.
#[derive(Debug)]
pub struct MovePlan {
    pub moves: Vec<Move>,
    pub entries: usize,
    pub message: String,
}

/// How many of the ids are ids of nodes.
pub open spec fn found_count(nodes: Seq<Node>, ids: Seq<u128>) -> nat
    decreases ids.len(),
{
    if ids.len() == 0 {
        0
    } else {
        found_count(nodes, ids.drop_last()) + if has_node(nodes, ids.last()) {
            1nat
        } else {
            0
        }
    }
}

/// The node with the id and its box, where it has one.
pub open spec fn boxed_node(nodes: Seq<Node>, id: u128) -> Option<Boxed> {
    if has_node(nodes, id) {
        let k = position_of(nodes, id);
        match nodes[k].bounds {
            Some(b) => Some(
                Boxed { position: k as usize, bounds: world_bounds(b, nodes[k].transform) },
            ),
            None => None,
        }
    } else {
        None
    }
}

/// The nodes with these ids that have a box.
pub open spec fn boxed_nodes(nodes: Seq<Node>, ids: Seq<u128>) -> Seq<Boxed>
    decreases ids.len(),
{
    if ids.len() == 0 {
        Seq::empty()
    } else {
        let before = boxed_nodes(nodes, ids.drop_last());
        match boxed_node(nodes, ids.last()) {
            Some(b) => before.push(b),
            None => before,
        }
    }
}

fn box_of(nodes: &Vec<Node>, k: usize) -> (r: Option<Boxed>)
    requires
        k < nodes.len(),
    ensures
        r == (match nodes@[k as int].bounds {
            Some(b) => Some(
                Boxed { position: k, bounds: world_bounds(b, nodes@[k as int].transform) },
            ),
            None => None,
        }),
{
    match &nodes[k].bounds {
        Some(b) => Some(Boxed { position: k, bounds: world_box(b, &nodes[k].transform) }),
        None => None,
    }
}

fn find_boxes(nodes: &Vec<Node>, ids: &Vec<u128>) -> (r: (Vec<Boxed>, usize))
    ensures
        r.0@ == boxed_nodes(nodes@, ids@),
        r.1 == found_count(nodes@, ids@),
{
    let mut out: Vec<Boxed> = Vec::new();
    let mut found: usize = 0;
    let mut i: usize = 0;
    assert(ids@.take(0) =~= Seq::<u128>::empty());
    while i < ids.len()
        invariant
            i <= ids.len(),
            found <= i,
            out@ == boxed_nodes(nodes@, ids@.take(i as int)),
            found == found_count(nodes@, ids@.take(i as int)),
        decreases ids.len() - i,
    {
        proof {
            assert(ids@.take(i + 1).drop_last() =~= ids@.take(i as int));
            assert(ids@.take(i + 1).last() == ids@[i as int]);
        }
        if let Some(k) = find_node(nodes, ids[i]) {
            found += 1;
            if let Some(b) = box_of(nodes, k) {
                out.push(b);
            }
        }
        i += 1;
    }
    assert(ids@.take(ids@.len() as int) =~= ids@);
    (out, found)
}

/// The smallest box around all boxes.
pub open spec fn hull(items: Seq<Boxed>) -> Bounds
    decreases items.len(),
{
    if items.len() == 0 {
        Bounds {
            x0: infinity(false),
            y0: infinity(false),
            x1: infinity(true),
            y1: infinity(true),
        }
    } else {
        let h = hull(items.drop_last());
        let b = items.last().bounds;
        Bounds {
            x0: f_min(h.x0, b.x0),
            y0: f_min(h.y0, b.y0),
            x1: f_max(h.x1, b.x1),
            y1: f_max(h.y1, b.y1),
        }
    }
}

fn hull_of(items: &Vec<Boxed>) -> (r: Bounds)
    ensures
        r == hull(items@),
{
    let mut h = Bounds {
        x0: Double { bits: INFINITE },
        y0: Double { bits: INFINITE },
        x1: Double { bits: INFINITE + SIGN },
        y1: Double { bits: INFINITE + SIGN },
    };
    let mut i: usize = 0;
    assert(items@.take(0) =~= Seq::<Boxed>::empty());
    while i < items.len()
        invariant
            i <= items.len(),
            h == hull(items@.take(i as int)),
        decreases items.len() - i,
    {
        proof {
            assert(items@.take(i + 1).drop_last() =~= items@.take(i as int));
            assert(items@.take(i + 1).last() == items@[i as int]);
        }
        let b = items[i].bounds;
        h = Bounds {
            x0: minimum(h.x0, b.x0),
            y0: minimum(h.y0, b.y0),
            x1: maximum(h.x1, b.x1),
            y1: maximum(h.y1, b.y1),
        };
        i += 1;
    }
    assert(items@.take(items@.len() as int) =~= items@);
    h
}

/// What nodes are aligned to.
#[derive(Debug, Clone, Copy, PartialEq, Eq, Structural)]
pub enum AlignAnchor {
    Selection,
    Canvas,
    KeyObject,
}

#[derive(Debug, Clone, Copy, PartialEq, Eq, Structural)]
pub enum AlignOperation {
    Left,
    CenterHorizontal,
    Right,
    Top,
    CenterVertical,
    Bottom,
    DistributeHorizontal,
    DistributeVertical,
}

/// The first item with the id.
pub open spec fn key_item(nodes: Seq<Node>, items: Seq<Boxed>, id: u128) -> Option<Bounds>
    decreases items.len(),
{
    if items.len() == 0 {
        None
    } else if nodes[items[0].position as int].id == id {
        Some(items[0].bounds)
    } else {
        key_item(nodes, items.skip(1), id)
    }
}

/// The box that nodes are aligned to: the canvas, the key object, or what the
/// nodes span; the last too where the key object is none of them.
pub open spec fn reference_box(
    nodes: Seq<Node>,
    items: Seq<Boxed>,
    anchor: AlignAnchor,
    key: Option<u128>,
    canvas: (Double, Double),
) -> Bounds {
    let zero = (Double { bits: 0 });
    match anchor {
        AlignAnchor::Canvas => Bounds { x0: zero, y0: zero, x1: canvas.0, y1: canvas.1 },
        AlignAnchor::Selection => hull(items),
        AlignAnchor::KeyObject => match key {
            None => hull(items),
            Some(id) => match key_item(nodes, items, id) {
                Some(b) => b,
                None => hull(items),
            },
        },
    }
}

fn find_key_item(nodes: &Vec<Node>, items: &Vec<Boxed>, id: u128) -> (r: Option<Bounds>)
    requires
        forall|i: int| 0 <= i < items.len() ==> (#[trigger] items@[i]).position < nodes.len(),
    ensures
        r == key_item(nodes@, items@, id),
{
    let mut i: usize = 0;
    assert(items@.skip(0) =~= items@);
    while i < items.len()
        invariant
            i <= items.len(),
            forall|i: int| 0 <= i < items.len() ==> (#[trigger] items@[i]).position < nodes.len(),
            key_item(nodes@, items@, id) == key_item(nodes@, items@.skip(i as int), id),
        decreases items.len() - i,
    {
        assert(items@.skip(i as int)[0] == items@[i as int]);
        assert(items@.skip(i as int).skip(1) =~= items@.skip(i + 1));
        let p: usize = items[i].position;
        if nodes[p].id == id {
            return Some(items[i].bounds);
        }
        i += 1;
    }
    None
}

fn reference_of(
    nodes: &Vec<Node>,
    items: &Vec<Boxed>,
    anchor: AlignAnchor,
    key: Option<u128>,
    canvas: (Double, Double),
) -> (r: Bounds)
    requires
        forall|i: int| 0 <= i < items.len() ==> (#[trigger] items@[i]).position < nodes.len(),
    ensures
        r == reference_box(nodes@, items@, anchor, key, canvas),
{
    let zero = Double { bits: 0 };
    match anchor {
        AlignAnchor::Canvas => Bounds { x0: zero, y0: zero, x1: canvas.0, y1: canvas.1 },
        AlignAnchor::Selection => hull_of(items),
        AlignAnchor::KeyObject => match key {
            None => hull_of(items),
            Some(id) => match find_key_item(nodes, items, id) {
                Some(b) => b,
                None => hull_of(items),
            },
        },
    }
}

/// The start of a box along an axis.
pub open spec fn lead(b: Bounds, horizontal: bool) -> Double {
    if horizontal {
        b.x0
    } else {
        b.y0
    }
}

/// The end of a box along an axis.
pub open spec fn trail(b: Bounds, horizontal: bool) -> Double {
    if horizontal {
        b.x1
    } else {
        b.y1
    }
}

pub open spec fn extent(b: Bounds, horizontal: bool) -> Double {
    f_sub(trail(b, horizontal), lead(b, horizontal))
}

fn lead_of(b: &Bounds, horizontal: bool) -> (r: Double)
    ensures
        r == lead(*b, horizontal),
{
    if horizontal {
        b.x0
    } else {
        b.y0
    }
}

fn extent_of(b: &Bounds, horizontal: bool) -> (r: Double)
    ensures
        r == extent(*b, horizontal),
{
    if horizontal {
        minus(b.x1, b.x0)
    } else {
        minus(b.y1, b.y0)
    }
}

/// `x` put into a sorted list, behind everything that does not start later.
pub open spec fn put_in_order(sorted: Seq<Boxed>, x: Boxed, horizontal: bool) -> Seq<Boxed>
    decreases sorted.len(),
{
    if sorted.len() > 0 && lead(sorted.last().bounds, horizontal).key() > lead(
        x.bounds,
        horizontal,
    ).key() {
        put_in_order(sorted.drop_last(), x, horizontal).push(sorted.last())
    } else {
        sorted.push(x)
    }
}

/// The boxes in the order in which they start; those that start together keep
/// their order.
pub open spec fn in_order(items: Seq<Boxed>, horizontal: bool) -> Seq<Boxed>
    decreases items.len(),
{
    if items.len() == 0 {
        Seq::empty()
    } else {
        put_in_order(in_order(items.drop_last(), horizontal), items.last(), horizontal)
    }
}

pub proof fn lemma_put_len(sorted: Seq<Boxed>, x: Boxed, horizontal: bool)
    ensures
        put_in_order(sorted, x, horizontal).len() == sorted.len() + 1,
    decreases sorted.len(),
{
    if sorted.len() > 0 && lead(sorted.last().bounds, horizontal).key() > lead(
        x.bounds,
        horizontal,
    ).key() {
        lemma_put_len(sorted.drop_last(), x, horizontal);
    }
}

pub proof fn lemma_order_len(items: Seq<Boxed>, horizontal: bool)
    ensures
        in_order(items, horizontal).len() == items.len(),
    decreases items.len(),
{
    if items.len() > 0 {
        lemma_order_len(items.drop_last(), horizontal);
        lemma_put_len(in_order(items.drop_last(), horizontal), items.last(), horizontal);
    }
}

fn insert_item(sorted: &mut Vec<Boxed>, x: Boxed, horizontal: bool)
    ensures
        final(sorted)@ == put_in_order(old(sorted)@, x, horizontal),
{
    let ghost start = sorted@;
    let mut n: usize = sorted.len();
    assert(start.take(n as int) =~= start);
    assert(start.skip(n as int) =~= Seq::<Boxed>::empty());
    assert(put_in_order(start, x, horizontal) =~= put_in_order(
        start.take(n as int),
        x,
        horizontal,
    ) + start.skip(n as int));
    while n > 0 && !lead_of(&sorted[n - 1].bounds, horizontal).at_most(
        lead_of(&x.bounds, horizontal),
    )
        invariant
            n <= sorted.len(),
            sorted@ == start,
            put_in_order(start, x, horizontal) == put_in_order(
                start.take(n as int),
                x,
                horizontal,
            ) + start.skip(n as int),
        decreases n,
    {
        proof {
            let here = start.take(n as int);
            assert(here.last() == start[n - 1]);
            assert(here.drop_last() =~= start.take(n - 1));
            assert(put_in_order(start.take(n - 1), x, horizontal).push(start[n - 1]) + start.skip(
                n as int,
            ) =~= put_in_order(start.take(n - 1), x, horizontal) + start.skip(n - 1));
        }
        n -= 1;
    }
    sorted.insert(n, x);
    assert(sorted@ =~= start.take(n as int).push(x) + start.skip(n as int));
    proof {
        if n > 0 {
            assert(start.take(n as int).last() == start[n - 1]);
        }
    }
}

fn ordered(items: &Vec<Boxed>, horizontal: bool) -> (r: Vec<Boxed>)
    ensures
        r@ == in_order(items@, horizontal),
        r.len() == items.len(),
{
    let mut out: Vec<Boxed> = Vec::new();
    let mut i: usize = 0;
    assert(items@.take(0) =~= Seq::<Boxed>::empty());
    while i < items.len()
        invariant
            i <= items.len(),
            out@ == in_order(items@.take(i as int), horizontal),
        decreases items.len() - i,
    {
        proof {
            assert(items@.take(i + 1).drop_last() =~= items@.take(i as int));
            assert(items@.take(i + 1).last() == items@[i as int]);
        }
        insert_item(&mut out, items[i], horizontal);
        i += 1;
    }
    assert(items@.take(items@.len() as int) =~= items@);
    proof {
        lemma_order_len(items@, horizontal);
    }
    out
}

/// The sum of the extents.
pub open spec fn total_extent(items: Seq<Boxed>, horizontal: bool) -> Double
    decreases items.len(),
{
    if items.len() == 0 {
        Double { bits: 0 }
    } else {
        f_add(
            total_extent(items.drop_last(), horizontal),
            extent(items.last().bounds, horizontal),
        )
    }
}

/// The gap between two neighbours: the one that is given, or what the outermost
/// nodes leave, shared evenly.
pub open spec fn even_gap(sorted: Seq<Boxed>, horizontal: bool, spacing: Option<Double>) -> Double {
    match spacing {
        Some(s) => s,
        None => f_div(
            f_sub(
                f_sub(
                    trail(sorted.last().bounds, horizontal),
                    lead(sorted[0].bounds, horizontal),
                ),
                total_extent(sorted, horizontal),
            ),
            whole(
                if sorted.len() >= 2 {
                    (sorted.len() - 1) as nat
                } else {
                    1
                },
            ),
        ),
    }
}

/// Where node `k` of the sorted list starts: the first stays, and each further
/// one starts a gap behind the one before it.
pub open spec fn spaced_start(sorted: Seq<Boxed>, horizontal: bool, gap: Double, k: nat) -> Double
    decreases k,
{
    if k == 0 {
        lead(sorted[0].bounds, horizontal)
    } else {
        f_add(
            spaced_start(sorted, horizontal, gap, (k - 1) as nat),
            f_add(extent(sorted[k - 1].bounds, horizontal), gap),
        )
    }
}

/// A move along one axis.
pub open spec fn axis_move(position: usize, by: Double, horizontal: bool) -> Move {
    let zero = (Double { bits: 0 });
    if horizontal {
        Move { position, dx: by, dy: zero }
    } else {
        Move { position, dx: zero, dy: by }
    }
}

/// The moves of the first `n` nodes of the sorted list; what hardly moves stays.
pub open spec fn spread_moves(
    sorted: Seq<Boxed>,
    horizontal: bool,
    gap: Double,
    n: nat,
) -> Seq<Move>
    decreases n,
{
    if n == 0 {
        Seq::empty()
    } else {
        let before = spread_moves(sorted, horizontal, gap, (n - 1) as nat);
        let item = sorted[n - 1];
        let by = f_sub(
            spaced_start(sorted, horizontal, gap, (n - 1) as nat),
            lead(item.bounds, horizontal),
        );
        if f_less((Double { bits: TINY }), f_abs(by)) {
            before.push(axis_move(item.position, by, horizontal))
        } else {
            before
        }
    }
}

fn total_of(items: &Vec<Boxed>, horizontal: bool) -> (r: Double)
    ensures
        r == total_extent(items@, horizontal),
{
    let mut total = Double { bits: 0 };
    let mut i: usize = 0;
    assert(items@.take(0) =~= Seq::<Boxed>::empty());
    while i < items.len()
        invariant
            i <= items.len(),
            total == total_extent(items@.take(i as int), horizontal),
        decreases items.len() - i,
    {
        proof {
            assert(items@.take(i + 1).drop_last() =~= items@.take(i as int));
            assert(items@.take(i + 1).last() == items@[i as int]);
        }
        total = plus(total, extent_of(&items[i].bounds, horizontal));
        i += 1;
    }
    assert(items@.take(items@.len() as int) =~= items@);
    total
}

fn distribute(items: &Vec<Boxed>, horizontal: bool, spacing: Option<Double>) -> (r: Vec<Move>)
    requires
        items.len() > 0,
    ensures
        ({
            let sorted = in_order(items@, horizontal);
            r@ == spread_moves(
                sorted,
                horizontal,
                even_gap(sorted, horizontal, spacing),
                sorted.len(),
            )
        }),
{
    let sorted = ordered(items, horizontal);
    let n: usize = sorted.len();
    let gap = match spacing {
        Some(s) => s,
        None => {
            let last = &sorted[n - 1].bounds;
            let end = if horizontal {
                last.x1
            } else {
                last.y1
            };
            let room = minus(
                minus(end, lead_of(&sorted[0].bounds, horizontal)),
                total_of(&sorted, horizontal),
            );
            let gaps: usize = if n >= 2 {
                n - 1
            } else {
                1
            };
            proof {
                lemma_positive(gaps as nat);
            }
            divided(room, from_count(gaps as u64))
        },
    };
    let mut cursor = lead_of(&sorted[0].bounds, horizontal);
    let mut moves: Vec<Move> = Vec::new();
    let mut i: usize = 0;
    while i < n
        invariant
            i <= n,
            n == sorted.len(),
            cursor == spaced_start(sorted@, horizontal, gap, i as nat),
            moves@ == spread_moves(sorted@, horizontal, gap, i as nat),
        decreases n - i,
    {
        let item = sorted[i];
        let by = minus(cursor, lead_of(&item.bounds, horizontal));
        if less((Double { bits: TINY }), absolute(by)) {
            let zero = Double { bits: 0 };
            moves.push(
                if horizontal {
                    Move { position: item.position, dx: by, dy: zero }
                } else {
                    Move { position: item.position, dx: zero, dy: by }
                },
            );
        }
        cursor = plus(cursor, plus(extent_of(&item.bounds, horizontal), gap));
        i += 1;
    }
    moves
}

/// How far a box is moved to be aligned.
pub open spec fn alignment(b: Bounds, to: Bounds, op: AlignOperation) -> (Double, Double) {
    let zero = (Double { bits: 0 });
    match op {
        AlignOperation::Left => (f_sub(to.x0, b.x0), zero),
        AlignOperation::CenterHorizontal => (
            f_sub(half(f_add(to.x0, to.x1)), half(f_add(b.x0, b.x1))),
            zero,
        ),
        AlignOperation::Right => (f_sub(to.x1, b.x1), zero),
        AlignOperation::Top => (zero, f_sub(to.y0, b.y0)),
        AlignOperation::CenterVertical => (
            zero,
            f_sub(half(f_add(to.y0, to.y1)), half(f_add(b.y0, b.y1))),
        ),
        AlignOperation::Bottom => (zero, f_sub(to.y1, b.y1)),
        _ => (zero, zero),
    }
}

fn alignment_of(b: &Bounds, to: &Bounds, op: AlignOperation) -> (r: (Double, Double))
    ensures
        r == alignment(*b, *to, op),
{
    let zero = Double { bits: 0 };
    match op {
        AlignOperation::Left => (minus(to.x0, b.x0), zero),
        AlignOperation::CenterHorizontal => (
            minus(halved(plus(to.x0, to.x1)), halved(plus(b.x0, b.x1))),
            zero,
        ),
        AlignOperation::Right => (minus(to.x1, b.x1), zero),
        AlignOperation::Top => (zero, minus(to.y0, b.y0)),
        AlignOperation::CenterVertical => (
            zero,
            minus(halved(plus(to.y0, to.y1)), halved(plus(b.y0, b.y1))),
        ),
        AlignOperation::Bottom => (zero, minus(to.y1, b.y1)),
        _ => (zero, zero),
    }
}

/// Too little to be a move.
pub open spec fn is_still(by: (Double, Double)) -> bool {
    f_less(f_abs(by.0), (Double { bits: TINY })) && f_less(f_abs(by.1), (Double { bits: TINY }))
}

fn still(by: (Double, Double)) -> (r: bool)
    ensures
        r == is_still(by),
{
    less(absolute(by.0), (Double { bits: TINY })) && less(absolute(by.1), (Double { bits: TINY }))
}

/// The moves of the first `n` nodes.
pub open spec fn align_moves(items: Seq<Boxed>, to: Bounds, op: AlignOperation, n: nat) -> Seq<Move>
    decreases n,
{
    if n == 0 {
        Seq::empty()
    } else {
        let before = align_moves(items, to, op, (n - 1) as nat);
        let by = alignment(items[n - 1].bounds, to, op);
        if is_still(by) {
            before
        } else {
            before.push(Move { position: items[n - 1].position, dx: by.0, dy: by.1 })
        }
    }
}

/// The moves that align or distribute nodes.
pub open spec fn arranged(
    items: Seq<Boxed>,
    to: Bounds,
    op: AlignOperation,
    spacing: Option<Double>,
) -> Seq<Move> {
    if op == AlignOperation::DistributeHorizontal || op == AlignOperation::DistributeVertical {
        let horizontal = op == AlignOperation::DistributeHorizontal;
        let sorted = in_order(items, horizontal);
        spread_moves(sorted, horizontal, even_gap(sorted, horizontal, spacing), sorted.len())
    } else {
        align_moves(items, to, op, items.len())
    }
}

pub open spec fn operation_text(op: AlignOperation) -> Seq<char> {
    match op {
        AlignOperation::Left => "left"@,
        AlignOperation::CenterHorizontal => "center_horizontal"@,
        AlignOperation::Right => "right"@,
        AlignOperation::Top => "top"@,
        AlignOperation::CenterVertical => "center_vertical"@,
        AlignOperation::Bottom => "bottom"@,
        AlignOperation::DistributeHorizontal => "distribute_horizontal"@,
        AlignOperation::DistributeVertical => "distribute_vertical"@,
    }
}

fn operation_name(op: AlignOperation) -> (r: &'static str)
    ensures
        r@ == operation_text(op),
{
    match op {
        AlignOperation::Left => "left",
        AlignOperation::CenterHorizontal => "center_horizontal",
        AlignOperation::Right => "right",
        AlignOperation::Top => "top",
        AlignOperation::CenterVertical => "center_vertical",
        AlignOperation::Bottom => "bottom",
        AlignOperation::DistributeHorizontal => "distribute_horizontal",
        AlignOperation::DistributeVertical => "distribute_vertical",
    }
}

pub open spec fn anchor_text(anchor: AlignAnchor) -> Seq<char> {
    match anchor {
        AlignAnchor::Selection => "selection"@,
        AlignAnchor::Canvas => "canvas"@,
        AlignAnchor::KeyObject => "key_object"@,
    }
}

fn anchor_name(anchor: AlignAnchor) -> (r: &'static str)
    ensures
        r@ == anchor_text(anchor),
{
    match anchor {
        AlignAnchor::Selection => "selection",
        AlignAnchor::Canvas => "canvas",
        AlignAnchor::KeyObject => "key_object",
    }
}

/// Why nodes are not aligned.
pub open spec fn align_error(nodes: Seq<Node>, ids: Seq<u128>) -> Option<Seq<char>> {
    if ids.len() < 2 {
        Some("align_nodes requires at least 2 node IDs"@)
    } else if found_count(nodes, ids) < 2 {
        Some(
            "Could not find enough nodes — requested "@ + decimal_text(ids.len()) + ", found "@
                + decimal_text(found_count(nodes, ids)),
        )
    } else if boxed_nodes(nodes, ids).len() == 0 {
        Some(
            "None of the specified nodes have computable bounds (groups are not supported)"@,
        )
    } else {
        None
    }
}

/// The spacing, where one is given and nodes are distributed.
pub open spec fn spacing_note(op: AlignOperation, spacing: Option<Double>) -> Seq<char> {
    match spacing {
        Some(s) => if op == AlignOperation::DistributeHorizontal || op
            == AlignOperation::DistributeVertical {
            ", spacing: "@ + shown(s) + "px"@
        } else {
            ""@
        },
        None => ""@,
    }
}

/// What is said about a number of moves.
pub open spec fn align_message(
    n: nat,
    op: AlignOperation,
    anchor: AlignAnchor,
    spacing: Option<Double>,
) -> Seq<char> {
    if n == 0 {
        "All nodes are already aligned — no changes made"@
    } else {
        "Aligned "@ + decimal_text(n) + " node(s) — operation: "@ + operation_text(op)
            + ", anchor: "@ + anchor_text(anchor) + spacing_note(op, spacing)
    }
}

fn say_spacing(op: AlignOperation, spacing: Option<Double>) -> (r: String)
    ensures
        r@ == spacing_note(op, spacing),
{
    match spacing {
        Some(s) => if op == AlignOperation::DistributeHorizontal || op
            == AlignOperation::DistributeVertical {
            let mut v = chars_of(", spacing: ");
            push_str(&mut v, show_number(s).as_str());
            push_str(&mut v, "px");
            text_of(&v)
        } else {
            "".to_owned()
        },
        None => "".to_owned(),
    }
}

proof fn lemma_boxes_in_range(nodes: Seq<Node>, ids: Seq<u128>)
    requires
        nodes.len() <= usize::MAX,
    ensures
        forall|i: int|
            0 <= i < boxed_nodes(nodes, ids).len() ==> (#[trigger] boxed_nodes(
                nodes,
                ids,
            )[i]).position < nodes.len(),
    decreases ids.len(),
{
    if ids.len() > 0 {
        lemma_boxes_in_range(nodes, ids.drop_last());
        let before = boxed_nodes(nodes, ids.drop_last());
        let all = boxed_nodes(nodes, ids);
        let id = ids.last();
        if has_node(nodes, id) {
            lemma_first_exists(nodes, id);
        }
        assert forall|i: int| 0 <= i < all.len() implies (#[trigger] all[i]).position
            < nodes.len() by {
            if i < before.len() {
                assert(all[i] == before[i]);
            }
        }
    }
}

/// Where a node has an id, a first one has it.
pub proof fn lemma_first_exists(nodes: Seq<Node>, id: u128)
    requires
        has_node(nodes, id),
    ensures
        is_node_at(nodes, id, position_of(nodes, id)),
{
    let k = choose|k: int| 0 <= k < nodes.len() && (#[trigger] nodes[k]).id == id;
    lemma_first_before(nodes, id, k);
}

proof fn lemma_first_before(nodes: Seq<Node>, id: u128, k: int)
    requires
        0 <= k < nodes.len(),
        nodes[k].id == id,
    ensures
        exists|j: int| is_node_at(nodes, id, j),
    decreases k,
{
    if exists|j: int| 0 <= j < k && (#[trigger] nodes[j]).id == id {
        let j = choose|j: int| 0 <= j < k && (#[trigger] nodes[j]).id == id;
        lemma_first_before(nodes, id, j);
    } else {
        assert(is_node_at(nodes, id, k));
    }
}

/// Aligns or distributes nodes by their boxes. Aligning moves an edge or the
/// centre of each node to that of the reference; distributing spaces the nodes
/// evenly and leaves the first where it is. All moves make one entry of the history;
/// where nothing moves there is none.
pub fn align_nodes(
    nodes: &Vec<Node>,
    ids: &Vec<u128>,
    canvas: (Double, Double),
    operation: AlignOperation,
    anchor: AlignAnchor,
    key_object: Option<u128>,
    spacing: Option<Double>,
) -> (r: Result<MovePlan, String>)
    ensures
        match r {
            Err(e) => align_error(nodes@, ids@) == Some(e@),
            Ok(p) => {
                let items = boxed_nodes(nodes@, ids@);
                &&& align_error(nodes@, ids@) is None
                &&& p.moves@ == arranged(
                    items,
                    reference_box(nodes@, items, anchor, key_object, canvas),
                    operation,
                    spacing,
                )
                &&& p.entries == if p.moves@.len() > 0 {
                    1usize
                } else {
                    0usize
                }
                &&& p.message@ == align_message(
                    p.moves@.len(),
                    operation,
                    anchor,
                    spacing,
                )
            },
        },
{
    if ids.len() < 2 {
        return Err("align_nodes requires at least 2 node IDs".to_owned());
    }
    let (items, found) = find_boxes(nodes, ids);
    if found < 2 {
        let mut v = chars_of("Could not find enough nodes — requested ");
        push_all(&mut v, &number_text(ids.len() as u64));
        push_str(&mut v, ", found ");
        push_all(&mut v, &number_text(found as u64));
        return Err(text_of(&v));
    }
    if items.len() == 0 {
        return Err(
            "None of the specified nodes have computable bounds (groups are not supported)".to_owned(),
        );
    }
    proof {
        assert(nodes.len() == nodes@.len());
        lemma_boxes_in_range(nodes@, ids@);
    }
    let to = reference_of(nodes, &items, anchor, key_object, canvas);
    let moves = match operation {
        AlignOperation::DistributeHorizontal => distribute(&items, true, spacing),
        AlignOperation::DistributeVertical => distribute(&items, false, spacing),
        _ => {
            let mut moves: Vec<Move> = Vec::new();
            let mut i: usize = 0;
            while i < items.len()
                invariant
                    i <= items.len(),
                    moves@ == align_moves(items@, to, operation, i as nat),
                decreases items.len() - i,
            {
                let by = alignment_of(&items[i].bounds, &to, operation);
                if !still(by) {
                    moves.push(Move { position: items[i].position, dx: by.0, dy: by.1 });
                }
                i += 1;
            }
            moves
        },
    };
    let n: usize = moves.len();
    let message = if n == 0 {
        "All nodes are already aligned — no changes made".to_owned()
    } else {
        let mut v = chars_of("Aligned ");
        push_all(&mut v, &number_text(n as u64));
        push_str(&mut v, " node(s) — operation: ");
        push_str(&mut v, operation_name(operation));
        push_str(&mut v, ", anchor: ");
        push_str(&mut v, anchor_name(anchor));
        push_str(&mut v, say_spacing(operation, spacing).as_str());
        text_of(&v)
    };
    let entries: usize = if moves.len() > 0 {
        1
    } else {
        0
    };
    Ok(MovePlan { moves, entries, message })
}

/// Where nodes are distributed, the first of them is the anchor: it is not moved.
pub proof fn law_first_node_stays(sorted: Seq<Boxed>, horizontal: bool, gap: Double, n: nat)
    requires
        n <= sorted.len(),
        forall|i: int|
            0 < i < sorted.len() ==> (#[trigger] sorted[i]).position != sorted[0].position,
    ensures
        forall|j: int|
            0 <= j < spread_moves(sorted, horizontal, gap, n).len() ==> (
            #[trigger] spread_moves(sorted, horizontal, gap, n)[j]).position
                != sorted[0].position,
    decreases n,
{
    if n > 0 {
        law_first_node_stays(sorted, horizontal, gap, (n - 1) as nat);
        let before = spread_moves(sorted, horizontal, gap, (n - 1) as nat);
        let now = spread_moves(sorted, horizontal, gap, n);
        if n == 1 {
            let start = lead(sorted[0].bounds, horizontal);
            lemma_self_difference(start);
            assert(spaced_start(sorted, horizontal, gap, 0) == start);
            assert(now == before);
        } else {
            assert(sorted[n - 1].position != sorted[0].position);
            assert forall|j: int| 0 <= j < now.len() implies (#[trigger] now[j]).position
                != sorted[0].position by {
                if j < before.len() {
                    assert(now[j] == before[j]);
                }
            }
        }
    }
}

/// Sorting keeps every box.
pub proof fn law_order_keeps_boxes(items: Seq<Boxed>, horizontal: bool)
    ensures
        in_order(items, horizontal).to_multiset() =~= items.to_multiset(),
        in_order(items, horizontal).len() == items.len(),
    decreases items.len(),
{
    broadcast use vstd::seq_lib::group_to_multiset_ensures;

    lemma_order_len(items, horizontal);
    if items.len() > 0 {
        let rest = items.drop_last();
        law_order_keeps_boxes(rest, horizontal);
        lemma_put_multiset(in_order(rest, horizontal), items.last(), horizontal);
        assert(items =~= rest.push(items.last()));
    } else {
        assert(in_order(items, horizontal) =~= items);
    }
}

proof fn lemma_put_multiset(sorted: Seq<Boxed>, x: Boxed, horizontal: bool)
    ensures
        put_in_order(sorted, x, horizontal).to_multiset() =~= sorted.to_multiset().insert(x),
    decreases sorted.len(),
{
    broadcast use vstd::seq_lib::group_to_multiset_ensures;

    if sorted.len() > 0 && lead(sorted.last().bounds, horizontal).key() > lead(
        x.bounds,
        horizontal,
    ).key() {
        let rest = sorted.drop_last();
        lemma_put_multiset(rest, x, horizontal);
        assert(sorted =~= rest.push(sorted.last()));
    }
}

/// How nodes are laid out.
#[derive(Debug, Clone, Copy, PartialEq, Eq, Structural)]
pub enum LayoutMode {
    Grid,
    Circle,
    StackHorizontal,
    StackVertical,
}

/// How nodes stand across the direction of a stack.
#[derive(Debug, Clone, Copy, PartialEq, Eq, Structural)]
pub enum CrossAxisAlign {
    Start,
    Center,
    End,
}

/// What a layout is made with; what is absent has a default.
#[derive(Debug)]
pub struct LayoutNodesArgs {
    pub layout: LayoutMode,
    pub columns: Option<usize>,
    pub gap_x: Option<Double>,
    pub gap_y: Option<Double>,
    pub cell_width: Option<Double>,
    pub cell_height: Option<Double>,
    pub x: Option<Double>,
    pub y: Option<Double>,
    pub cx: Option<Double>,
    pub cy: Option<Double>,
    pub radius: Option<Double>,
    pub gap: Option<Double>,
    pub align: CrossAxisAlign,
    /// For a circle, the cosine and the sine of the angle of each node.
    pub directions: Vec<(Double, Double)>,
}

pub open spec fn or_default(o: Option<Double>, d: Double) -> Double {
    match o {
        Some(v) => v,
        None => d,
    }
}

pub fn given_or_default(o: Option<Double>, d: Double) -> (r: Double)
    ensures
        r == or_default(o, d),
{
    match o {
        Some(v) => v,
        None => d,
    }
}

/// The largest extent, at least zero.
pub open spec fn widest(items: Seq<Boxed>, horizontal: bool) -> Double
    decreases items.len(),
{
    if items.len() == 0 {
        Double { bits: 0 }
    } else {
        f_max(widest(items.drop_last(), horizontal), extent(items.last().bounds, horizontal))
    }
}

fn widest_of(items: &Vec<Boxed>, horizontal: bool) -> (r: Double)
    ensures
        r == widest(items@, horizontal),
{
    let mut best = Double { bits: 0 };
    let mut i: usize = 0;
    assert(items@.take(0) =~= Seq::<Boxed>::empty());
    while i < items.len()
        invariant
            i <= items.len(),
            best == widest(items@.take(i as int), horizontal),
        decreases items.len() - i,
    {
        proof {
            assert(items@.take(i + 1).drop_last() =~= items@.take(i as int));
            assert(items@.take(i + 1).last() == items@[i as int]);
        }
        best = maximum(best, extent_of(&items[i].bounds, horizontal));
        i += 1;
    }
    assert(items@.take(items@.len() as int) =~= items@);
    best
}

/// `c` is the least number whose square is not below `n`.
pub open spec fn is_root_above(n: nat, c: nat) -> bool {
    c * c >= n && (c == 0 || (c - 1) * (c - 1) < n)
}

/// The columns of a grid: as many as are given, or so many that the grid is about
/// square; at least one.
pub open spec fn is_column_count(columns: Option<usize>, n: nat, c: nat) -> bool {
    match columns {
        Some(k) => c == if k >= 1 {
            k as nat
        } else {
            1
        },
        None => (n == 0 && c == 1) || (n > 0 && is_root_above(n, c)),
    }
}

fn square(c: usize) -> (r: u128)
    ensures
        r == c * c,
{
    assert(c as u128 * c as u128 <= 0xffff_ffff_ffff_ffff * 0xffff_ffff_ffff_ffff)
        by (nonlinear_arith)
        requires
            0 <= c <= 0xffff_ffff_ffff_ffff,
    ;
    (c as u128) * (c as u128)
}

fn grid_columns(columns: Option<usize>, n: usize) -> (c: usize)
    ensures
        is_column_count(columns, n as nat, c as nat),
        c >= 1,
{
    match columns {
        Some(k) => if k >= 1 {
            k
        } else {
            1
        },
        None => {
            let mut c: usize = 1;
            assert(0int * 0 == 0) by (nonlinear_arith);
            assert(n > 0 ==> (1 - 1) * (1 - 1) < n) by (nonlinear_arith)
                requires
                    n >= 0,
            ;
            if n == 0 {
                return 1;
            }
            while c < n && square(c) < n as u128
                invariant
                    1 <= c <= n,
                    (c - 1) * (c - 1) < n,
                decreases n - c,
            {
                assert(c as int * c as int == (c + 1 - 1) * (c + 1 - 1));
                c += 1;
            }
            assert(c * c >= n) by (nonlinear_arith)
                requires
                    c >= n || (c as int) * (c as int) >= n,
                    c >= 1,
            ;
            c
        },
    }
}

/// Where node `i` of a grid starts: in the middle of its cell.
pub open spec fn grid_target(
    items: Seq<Boxed>,
    args: LayoutNodesArgs,
    columns: nat,
    i: int,
) -> (Double, Double) {
    let twenty = whole(20);
    let cell_w = or_default(args.cell_width, widest(items, true));
    let cell_h = or_default(args.cell_height, widest(items, false));
    let x = f_add(
        or_default(args.x, hull(items).x0),
        f_mul(whole(i as nat % columns), f_add(cell_w, or_default(args.gap_x, twenty))),
    );
    let y = f_add(
        or_default(args.y, hull(items).y0),
        f_mul(whole(i as nat / columns), f_add(cell_h, or_default(args.gap_y, twenty))),
    );
    (
        f_add(x, half(f_sub(cell_w, extent(items[i].bounds, true)))),
        f_add(y, half(f_sub(cell_h, extent(items[i].bounds, false)))),
    )
}

/// Where node `i` of a circle starts: its centre lies on the circle.
pub open spec fn circle_target(items: Seq<Boxed>, args: LayoutNodesArgs, i: int) -> (
    Double,
    Double,
) {
    let h = hull(items);
    let radius = or_default(args.radius, whole(200));
    let x = f_add(
        or_default(args.cx, half(f_add(h.x0, h.x1))),
        f_mul(radius, args.directions@[i].0),
    );
    let y = f_add(
        or_default(args.cy, half(f_add(h.y0, h.y1))),
        f_mul(radius, args.directions@[i].1),
    );
    (
        f_sub(x, half(extent(items[i].bounds, true))),
        f_sub(y, half(extent(items[i].bounds, false))),
    )
}

/// Where node `i` of a stack starts along it.
pub open spec fn stack_start(items: Seq<Boxed>, from: Double, horizontal: bool, gap: Double, i: nat) -> Double
    decreases i,
{
    if i == 0 {
        from
    } else {
        f_add(
            stack_start(items, from, horizontal, gap, (i - 1) as nat),
            f_add(extent(items[i - 1].bounds, horizontal), gap),
        )
    }
}

/// Where a node of a stack starts across it. `size` is the extent of the node,
/// `room` that of the largest.
pub open spec fn cross_start(from: Double, room: Double, size: Double, align: CrossAxisAlign) -> Double {
    match align {
        CrossAxisAlign::Start => from,
        CrossAxisAlign::Center => f_sub(f_add(from, half(room)), half(size)),
        CrossAxisAlign::End => f_sub(f_add(from, room), size),
    }
}

/// Where node `i` of a stack starts.
pub open spec fn stack_target(
    items: Seq<Boxed>,
    args: LayoutNodesArgs,
    horizontal: bool,
    i: int,
) -> (Double, Double) {
    let gap = or_default(args.gap, whole(20));
    let x = or_default(args.x, hull(items).x0);
    let y = or_default(args.y, hull(items).y0);
    if horizontal {
        (
            stack_start(items, x, true, gap, i as nat),
            cross_start(y, widest(items, false), extent(items[i].bounds, false), args.align),
        )
    } else {
        (
            cross_start(x, widest(items, true), extent(items[i].bounds, true), args.align),
            stack_start(items, y, false, gap, i as nat),
        )
    }
}

/// Where node `i` goes.
pub open spec fn layout_target(
    items: Seq<Boxed>,
    args: LayoutNodesArgs,
    columns: nat,
    i: int,
) -> (Double, Double) {
    match args.layout {
        LayoutMode::Grid => grid_target(items, args, columns, i),
        LayoutMode::Circle => circle_target(items, args, i),
        LayoutMode::StackHorizontal => stack_target(items, args, true, i),
        LayoutMode::StackVertical => stack_target(items, args, false, i),
    }
}

/// The moves of the first `n` nodes.
pub open spec fn layout_moves(
    items: Seq<Boxed>,
    args: LayoutNodesArgs,
    columns: nat,
    n: nat,
) -> Seq<Move>
    decreases n,
{
    if n == 0 {
        Seq::empty()
    } else {
        let before = layout_moves(items, args, columns, (n - 1) as nat);
        let item = items[n - 1];
        let to = layout_target(items, args, columns, n - 1);
        let by = (f_sub(to.0, item.bounds.x0), f_sub(to.1, item.bounds.y0));
        if is_still(by) {
            before
        } else {
            before.push(Move { position: item.position, dx: by.0, dy: by.1 })
        }
    }
}

/// Why nodes are not laid out: the first that does not exist or has no box.
pub open spec fn layout_error(nodes: Seq<Node>, ids: Seq<u128>) -> Option<Seq<char>>
    decreases ids.len(),
{
    if ids.len() == 0 {
        None
    } else {
        match layout_error(nodes, ids.drop_last()) {
            Some(e) => Some(e),
            None => if !has_node(nodes, ids.last()) {
                Some("Node not found: "@ + id_text(ids.last()))
            } else if nodes[position_of(nodes, ids.last())].bounds is None {
                Some(
                    quoted_name(
                        "Node"@,
                        nodes[position_of(nodes, ids.last())].name@,
                        " has no computable bounds (groups are not supported)"@,
                    ),
                )
            } else {
                None
            },
        }
    }
}

proof fn lemma_layout_error_take(nodes: Seq<Node>, ids: Seq<u128>, i: int)
    requires
        0 <= i <= ids.len(),
        layout_error(nodes, ids.take(i)) is Some,
    ensures
        layout_error(nodes, ids) == layout_error(nodes, ids.take(i)),
    decreases ids.len() - i,
{
    if i == ids.len() {
        assert(ids.take(i) =~= ids);
    } else {
        assert(ids.take(i + 1).drop_last() =~= ids.take(i));
        lemma_layout_error_take(nodes, ids, i + 1);
    }
}

fn find_all_boxes(nodes: &Vec<Node>, ids: &Vec<u128>) -> (r: Result<Vec<Boxed>, String>)
    ensures
        match r {
            Err(e) => layout_error(nodes@, ids@) == Some(e@),
            Ok(v) => layout_error(nodes@, ids@) is None && v@ == boxed_nodes(nodes@, ids@) && v.len()
                == ids.len(),
        },
{
    let mut out: Vec<Boxed> = Vec::new();
    let mut i: usize = 0;
    assert(ids@.take(0) =~= Seq::<u128>::empty());
    while i < ids.len()
        invariant
            i <= ids.len(),
            out.len() == i,
            out@ == boxed_nodes(nodes@, ids@.take(i as int)),
            layout_error(nodes@, ids@.take(i as int)) is None,
        decreases ids.len() - i,
    {
        proof {
            assert(ids@.take(i + 1).drop_last() =~= ids@.take(i as int));
            assert(ids@.take(i + 1).last() == ids@[i as int]);
        }
        match find_node(nodes, ids[i]) {
            None => {
                let mut v = chars_of("Node not found: ");
                push_id(&mut v, ids[i]);
                proof {
                    lemma_layout_error_take(nodes@, ids@, i + 1);
                }
                return Err(text_of(&v));
            },
            Some(k) => match box_of(nodes, k) {
                None => {
                    proof {
                        lemma_layout_error_take(nodes@, ids@, i + 1);
                    }
                    return Err(
                        quoted_text(
                            "Node",
                            nodes[k].name.as_str(),
                            " has no computable bounds (groups are not supported)",
                        ),
                    );
                },
                Some(b) => {
                    out.push(b);
                },
            },
        }
        i += 1;
    }
    assert(ids@.take(ids@.len() as int) =~= ids@);
    Ok(out)
}

pub open spec fn layout_name(mode: LayoutMode) -> Seq<char> {
    match mode {
        LayoutMode::Grid => "Grid"@,
        LayoutMode::Circle => "Circle"@,
        LayoutMode::StackHorizontal => "StackHorizontal"@,
        LayoutMode::StackVertical => "StackVertical"@,
    }
}

fn name_of_layout(mode: LayoutMode) -> (r: &'static str)
    ensures
        r@ == layout_name(mode),
{
    match mode {
        LayoutMode::Grid => "Grid",
        LayoutMode::Circle => "Circle",
        LayoutMode::StackHorizontal => "StackHorizontal",
        LayoutMode::StackVertical => "StackVertical",
    }
}

/// What is said about `moved` of `n` nodes.
pub open spec fn layout_message(moved: nat, n: nat, mode: LayoutMode) -> Seq<char> {
    if moved == 0 {
        "All nodes are already in the target positions — nothing changed"@
    } else {
        "layout_nodes: moved "@ + decimal_text(moved) + " of "@ + decimal_text(n)
            + " node(s) using "@ + layout_name(mode) + " layout"@
    }
}

/// The angle of each of `n` nodes on a circle, in degrees: evenly spaced from a
/// start on.
pub open spec fn circle_angle(start: Double, n: nat, i: nat) -> Double {
    f_add(start, f_mul(whole(i), f_div(whole(360), whole(n))))
}

/// The angles of `n` nodes on a circle, in degrees.
pub fn circle_angles(start: Double, n: usize) -> (r: Vec<Double>)
    ensures
        r@ == Seq::new(n as nat, |i: int| circle_angle(start, n as nat, i as nat)),
{
    let ghost goal = Seq::new(n as nat, |i: int| circle_angle(start, n as nat, i as nat));
    let mut out: Vec<Double> = Vec::new();
    if n == 0 {
        assert(out@ =~= goal);
        return out;
    }
    proof {
        lemma_positive(n as nat);
    }
    let step = divided(from_count(360), from_count(n as u64));
    let mut i: usize = 0;
    while i < n
        invariant
            i <= n,
            step == f_div(whole(360), whole(n as nat)),
            goal == Seq::new(n as nat, |i: int| circle_angle(start, n as nat, i as nat)),
            out@ == goal.take(i as int),
        decreases n - i,
    {
        out.push(plus(start, times(from_count(i as u64), step)));
        i += 1;
        assert(out@ =~= goal.take(i as int));
    }
    assert(goal.take(n as int) =~= goal);
    out
}

struct LayoutFrame {
    hull: Bounds,
    widest: Double,
    tallest: Double,
}

fn target_of(
    items: &Vec<Boxed>,
    args: &LayoutNodesArgs,
    frame: &LayoutFrame,
    columns: usize,
    cursor: Double,
    i: usize,
) -> (r: (Double, Double))
    requires
        i < items.len(),
        columns >= 1,
        args.layout == LayoutMode::Circle ==> args.directions.len() == items.len(),
        frame.hull == hull(items@),
        frame.widest == widest(items@, true),
        frame.tallest == widest(items@, false),
        args.layout == LayoutMode::StackHorizontal ==> cursor == stack_start(
            items@,
            or_default(args.x, hull(items@).x0),
            true,
            or_default(args.gap, whole(20)),
            i as nat,
        ),
        args.layout == LayoutMode::StackVertical ==> cursor == stack_start(
            items@,
            or_default(args.y, hull(items@).y0),
            false,
            or_default(args.gap, whole(20)),
            i as nat,
        ),
    ensures
        r == layout_target(items@, *args, columns as nat, i as int),
{
    let b = &items[i].bounds;
    let w = extent_of(b, true);
    let h = extent_of(b, false);
    let x = given_or_default(args.x, frame.hull.x0);
    let y = given_or_default(args.y, frame.hull.y0);
    match args.layout {
        LayoutMode::Grid => {
            let cell_w = given_or_default(args.cell_width, frame.widest);
            let cell_h = given_or_default(args.cell_height, frame.tallest);
            let twenty = from_count(20);
            let left = plus(
                x,
                times(
                    from_count((i % columns) as u64),
                    plus(cell_w, given_or_default(args.gap_x, twenty)),
                ),
            );
            let top = plus(
                y,
                times(
                    from_count((i / columns) as u64),
                    plus(cell_h, given_or_default(args.gap_y, twenty)),
                ),
            );
            (plus(left, halved(minus(cell_w, w))), plus(top, halved(minus(cell_h, h))))
        },
        LayoutMode::Circle => {
            let f = &frame.hull;
            let radius = given_or_default(args.radius, from_count(200));
            let px = plus(
                given_or_default(args.cx, halved(plus(f.x0, f.x1))),
                times(radius, args.directions[i].0),
            );
            let py = plus(
                given_or_default(args.cy, halved(plus(f.y0, f.y1))),
                times(radius, args.directions[i].1),
            );
            (minus(px, halved(w)), minus(py, halved(h)))
        },
        LayoutMode::StackHorizontal => (cursor, cross_of(y, frame.tallest, h, args.align)),
        LayoutMode::StackVertical => (cross_of(x, frame.widest, w, args.align), cursor),
    }
}

fn cross_of(from: Double, room: Double, size: Double, align: CrossAxisAlign) -> (r: Double)
    ensures
        r == cross_start(from, room, size, align),
{
    match align {
        CrossAxisAlign::Start => from,
        CrossAxisAlign::Center => minus(plus(from, halved(room)), halved(size)),
        CrossAxisAlign::End => minus(plus(from, room), size),
    }
}

/// Lays nodes out in a grid, on a circle, or in a stack, in one entry of the history;
/// where nothing moves there is none.
pub fn layout_nodes(nodes: &Vec<Node>, ids: &Vec<u128>, args: &LayoutNodesArgs) -> (r: Result<
    MovePlan,
    String,
>)
    requires
        args.layout == LayoutMode::Circle ==> args.directions.len() == ids.len(),
    ensures
        match r {
            Err(e) => if ids.len() == 0 {
                e@ == "node_ids must not be empty"@
            } else {
                layout_error(nodes@, ids@) == Some(e@)
            },
            Ok(p) => {
                let items = boxed_nodes(nodes@, ids@);
                &&& ids.len() > 0
                &&& layout_error(nodes@, ids@) is None
                &&& exists|columns: nat| #[trigger]
                    is_column_count(args.columns, ids@.len(), columns) && p.moves@ == layout_moves(
                        items,
                        *args,
                        columns,
                        items.len(),
                    )
                &&& p.entries == if p.moves@.len() > 0 {
                    1usize
                } else {
                    0usize
                }
                &&& p.message@ == layout_message(p.moves@.len(), ids@.len(), args.layout)
            },
        },
{
    if ids.len() == 0 {
        return Err("node_ids must not be empty".to_owned());
    }
    let items = match find_all_boxes(nodes, ids) {
        Err(e) => {
            return Err(e);
        },
        Ok(v) => v,
    };
    let n: usize = items.len();
    let columns = grid_columns(args.columns, n);
    let frame = LayoutFrame {
        hull: hull_of(&items),
        widest: widest_of(&items, true),
        tallest: widest_of(&items, false),
    };
    let gap = given_or_default(args.gap, from_count(20));
    let horizontal = match args.layout {
        LayoutMode::StackVertical => false,
        _ => true,
    };
    let mut cursor = if horizontal {
        given_or_default(args.x, frame.hull.x0)
    } else {
        given_or_default(args.y, frame.hull.y0)
    };
    let ghost from = cursor;
    let mut moves: Vec<Move> = Vec::new();
    let mut i: usize = 0;
    while i < n
        invariant
            i <= n,
            n == items.len(),
            columns >= 1,
            args.layout == LayoutMode::Circle ==> args.directions.len() == items.len(),
            frame.hull == hull(items@),
            frame.widest == widest(items@, true),
            frame.tallest == widest(items@, false),
            gap == or_default(args.gap, whole(20)),
            horizontal == (args.layout != LayoutMode::StackVertical),
            from == if horizontal {
                or_default(args.x, hull(items@).x0)
            } else {
                or_default(args.y, hull(items@).y0)
            },
            cursor == stack_start(items@, from, horizontal, gap, i as nat),
            moves@ == layout_moves(items@, *args, columns as nat, i as nat),
        decreases n - i,
    {
        let to = target_of(&items, args, &frame, columns, cursor, i);
        let b = items[i].bounds;
        let by = (minus(to.0, b.x0), minus(to.1, b.y0));
        if !still(by) {
            moves.push(Move { position: items[i].position, dx: by.0, dy: by.1 });
        }
        cursor = plus(cursor, plus(extent_of(&b, horizontal), gap));
        i += 1;
    }
    let moved: usize = moves.len();
    let message = if moved == 0 {
        "All nodes are already in the target positions — nothing changed".to_owned()
    } else {
        let mut v = chars_of("layout_nodes: moved ");
        push_all(&mut v, &number_text(moved as u64));
        push_str(&mut v, " of ");
        push_all(&mut v, &number_text(n as u64));
        push_str(&mut v, " node(s) using ");
        push_str(&mut v, name_of_layout(args.layout));
        push_str(&mut v, " layout");
        text_of(&v)
    };
    assert(is_column_count(args.columns, ids@.len(), columns as nat));
    let entries: usize = if moves.len() > 0 {
        1
    } else {
        0
    };
    Ok(MovePlan { moves, entries, message })
}


/// All edges of a box are whole numbers of steps.
pub open spec fn is_plain_box(b: Bounds, j: nat) -> bool {
    is_plain(b.x0, j) && is_plain(b.y0, j) && is_plain(b.x1, j) && is_plain(b.y1, j)
}

pub open spec fn are_plain_boxes(items: Seq<Boxed>, j: nat) -> bool {
    forall|i: int| 0 <= i < items.len() ==> is_plain_box((#[trigger] items[i]).bounds, j)
}

/// A box that is moved by so many units stands to another as an operation wants it.
pub open spec fn is_aligned(b: Bounds, dx: int, dy: int, to: Bounds, op: AlignOperation) -> bool {
    match op {
        AlignOperation::Left => exact(b.x0) + dx == exact(to.x0) && dy == 0,
        AlignOperation::Right => exact(b.x1) + dx == exact(to.x1) && dy == 0,
        AlignOperation::CenterHorizontal => (exact(b.x0) + dx) + (exact(b.x1) + dx) == exact(to.x0)
            + exact(to.x1) && dy == 0,
        AlignOperation::Top => exact(b.y0) + dy == exact(to.y0) && dx == 0,
        AlignOperation::Bottom => exact(b.y1) + dy == exact(to.y1) && dx == 0,
        AlignOperation::CenterVertical => (exact(b.y0) + dy) + (exact(b.y1) + dy) == exact(to.y0)
            + exact(to.y1) && dx == 0,
        _ => true,
    }
}

proof fn lemma_alignment(b: Bounds, to: Bounds, op: AlignOperation, j: nat)
    requires
        is_plain_box(b, j),
        is_plain_box(to, j),
    ensures
        ({
            let by = alignment(b, to, op);
            by.0.wf() && by.1.wf() && is_aligned(b, exact(by.0), exact(by.1), to, op)
        }),
{
    lemma_zero_value(Double { bits: 0 });
    let i = (j - 1) as nat;
    let p = power(2, j);
    let q = power(2, i);
    assert(p == 2 * q);
    lemma_axis_alignment(b.x0, b.x1, to.x0, to.x1, j);
    lemma_axis_alignment(b.y0, b.y1, to.y0, to.y1, j);
}

proof fn lemma_axis_alignment(b0: Double, b1: Double, t0: Double, t1: Double, j: nat)
    requires
        is_plain(b0, j),
        is_plain(b1, j),
        is_plain(t0, j),
        is_plain(t1, j),
    ensures
        f_sub(t0, b0).wf(),
        exact(f_sub(t0, b0)) == exact(t0) - exact(b0),
        f_sub(t1, b1).wf(),
        exact(f_sub(t1, b1)) == exact(t1) - exact(b1),
        ({
            let by = f_sub(half(f_add(t0, t1)), half(f_add(b0, b1)));
            by.wf() && 2 * exact(by) == exact(t0) + exact(t1) - exact(b0) - exact(b1)
        }),
{
    let i = (j - 1) as nat;
    let p = power(2, j);
    let q = power(2, i);
    assert(p == 2 * q);
    let m0 = steps(b0, j);
    let m1 = steps(b1, j);
    let n0 = steps(t0, j);
    let n1 = steps(t1, j);
    lemma_difference_of_steps(t0, b0, j, n0, m0);
    lemma_difference_of_steps(t1, b1, j, n1, m1);
    assert((n0 - m0) * p == n0 * p - m0 * p) by (nonlinear_arith);
    assert((n1 - m1) * p == n1 * p - m1 * p) by (nonlinear_arith);
    lemma_sum_of_steps(t0, t1, j, n0, n1);
    lemma_sum_of_steps(b0, b1, j, m0, m1);
    lemma_finer(f_add(t0, t1), j, n0 + n1);
    lemma_finer(f_add(b0, b1), j, m0 + m1);
    lemma_half_of_steps(f_add(t0, t1), i, n0 + n1);
    lemma_half_of_steps(f_add(b0, b1), i, m0 + m1);
    lemma_difference_of_steps(half(f_add(t0, t1)), half(f_add(b0, b1)), i, n0 + n1, m0 + m1);
    let d = n0 + n1 - (m0 + m1);
    assert(2 * (d * q) == n0 * p + n1 * p - m0 * p - m1 * p) by (nonlinear_arith)
        requires
            d == n0 + n1 - (m0 + m1),
            p == 2 * q,
    ;
}

/// A box is off by a pixel or more from where an operation wants it.
#[verifier::opaque]
pub open spec fn is_off(b: Bounds, to: Bounds, op: AlignOperation) -> bool {
    let one = one_units();
    match op {
        AlignOperation::Left => abs(exact(to.x0) - exact(b.x0)) >= one,
        AlignOperation::Right => abs(exact(to.x1) - exact(b.x1)) >= one,
        AlignOperation::CenterHorizontal => abs(
            exact(to.x0) + exact(to.x1) - exact(b.x0) - exact(b.x1),
        ) >= 2 * one,
        AlignOperation::Top => abs(exact(to.y0) - exact(b.y0)) >= one,
        AlignOperation::Bottom => abs(exact(to.y1) - exact(b.y1)) >= one,
        AlignOperation::CenterVertical => abs(
            exact(to.y0) + exact(to.y1) - exact(b.y0) - exact(b.y1),
        ) >= 2 * one,
        _ => false,
    }
}

/// A pixel or more is a move.
proof fn lemma_not_still(by: (Double, Double))
    requires
        by.0.wf(),
        by.1.wf(),
        abs(exact(by.0)) >= one_units() || abs(exact(by.1)) >= one_units(),
    ensures
        !is_still(by),
{
    lemma_far(by.0);
    lemma_far(by.1);
}

proof fn lemma_far(x: Double)
    requires
        x.wf(),
    ensures
        abs(exact(x)) >= one_units() ==> !f_less(f_abs(x), (Double { bits: TINY })),
        abs(exact(x)) >= one_units() ==> f_less((Double { bits: TINY }), f_abs(x)),
{
    lemma_whole(1);
    lemma_one();
    assert(f_abs(x).magnitude() == x.magnitude());
    assert(!f_abs(x).negative());
    assert(exact(f_abs(x)) == abs(exact(x)));
    lemma_order(whole(1), f_abs(x));
}

/// A move brings a node to where an operation wants it.
#[verifier::opaque]
pub open spec fn brings(m: Move, item: Boxed, to: Bounds, op: AlignOperation) -> bool {
    m.position == item.position && is_aligned(item.bounds, exact(m.dx), exact(m.dy), to, op)
}

/// A node that aligning moves comes to stand where the operation wants it: its edge, or
/// its middle, at that of what it is aligned to, and not moved along the other axis.
pub proof fn law_moved_nodes_are_aligned(
    items: Seq<Boxed>,
    to: Bounds,
    op: AlignOperation,
    spacing: Option<Double>,
    j: nat,
    a: int,
)
    requires
        op != AlignOperation::DistributeHorizontal,
        op != AlignOperation::DistributeVertical,
        are_plain_boxes(items, j),
        is_plain_box(to, j),
        0 <= a < arranged(items, to, op, spacing).len(),
    ensures
        exists|k: int|
            0 <= k < items.len() && #[trigger] brings(
                arranged(items, to, op, spacing)[a],
                items[k],
                to,
                op,
            ),
{
    let k = lemma_moved_item(items, to, op, items.len(), j, a);
    assert(brings(arranged(items, to, op, spacing)[a], items[k], to, op));
}

/// Aligning moves every node that is off by a pixel or more.
pub proof fn law_nodes_that_are_off_are_aligned(
    items: Seq<Boxed>,
    to: Bounds,
    op: AlignOperation,
    spacing: Option<Double>,
    j: nat,
    k: int,
)
    requires
        are_plain_boxes(items, j),
        is_plain_box(to, j),
        0 <= k < items.len(),
        is_off(items[k].bounds, to, op),
    ensures
        exists|a: int|
            0 <= a < arranged(items, to, op, spacing).len() && #[trigger] brings(
                arranged(items, to, op, spacing)[a],
                items[k],
                to,
                op,
            ),
{
    assert(op != AlignOperation::DistributeHorizontal && op != AlignOperation::DistributeVertical)
        by {
        reveal(is_off);
    }
    let a = lemma_item_moved(items, to, op, items.len(), j, k);
    assert(brings(arranged(items, to, op, spacing)[a], items[k], to, op));
}

proof fn lemma_moved_item(
    items: Seq<Boxed>,
    to: Bounds,
    op: AlignOperation,
    n: nat,
    j: nat,
    a: int,
) -> (k: int)
    requires
        n <= items.len(),
        are_plain_boxes(items, j),
        is_plain_box(to, j),
        0 <= a < align_moves(items, to, op, n).len(),
    ensures
        0 <= k < n,
        brings(align_moves(items, to, op, n)[a], items[k], to, op),
    decreases n,
{
    let before = align_moves(items, to, op, (n - 1) as nat);
    if a < before.len() {
        lemma_moved_item(items, to, op, (n - 1) as nat, j, a)
    } else {
        lemma_align_step(items[n - 1], to, op, j);
        n - 1
    }
}

proof fn lemma_item_moved(
    items: Seq<Boxed>,
    to: Bounds,
    op: AlignOperation,
    n: nat,
    j: nat,
    k: int,
) -> (a: int)
    requires
        n <= items.len(),
        are_plain_boxes(items, j),
        is_plain_box(to, j),
        0 <= k < n,
        is_off(items[k].bounds, to, op),
    ensures
        0 <= a < align_moves(items, to, op, n).len(),
        brings(align_moves(items, to, op, n)[a], items[k], to, op),
    decreases n,
{
    if k < n - 1 {
        lemma_item_moved(items, to, op, (n - 1) as nat, j, k)
    } else {
        lemma_align_step(items[k], to, op, j);
        align_moves(items, to, op, (n - 1) as nat).len() as int
    }
}

proof fn lemma_align_step(item: Boxed, to: Bounds, op: AlignOperation, j: nat)
    requires
        is_plain_box(item.bounds, j),
        is_plain_box(to, j),
    ensures
        ({
            let by = alignment(item.bounds, to, op);
            &&& brings(Move { position: item.position, dx: by.0, dy: by.1 }, item, to, op)
            &&& is_off(item.bounds, to, op) ==> !is_still(by)
        }),
{
    reveal(brings);
    reveal(is_off);
    lemma_alignment(item.bounds, to, op, j);
    if is_off(item.bounds, to, op) {
        lemma_not_still(alignment(item.bounds, to, op));
    }
}

/// The box around boxes holds each of them, and each of its edges is that of one.
pub proof fn law_hull_is_tight(items: Seq<Boxed>)
    requires
        items.len() > 0,
        forall|i: int| 0 <= i < items.len() ==> is_finite_box((#[trigger] items[i]).bounds),
    ensures
        ({
            let h = hull(items);
            &&& forall|i: int|
                0 <= i < items.len() ==> h.x0.key() <= (#[trigger] items[i]).bounds.x0.key()
                    && h.y0.key() <= items[i].bounds.y0.key() && items[i].bounds.x1.key()
                    <= h.x1.key() && items[i].bounds.y1.key() <= h.y1.key()
            &&& exists|i: int| 0 <= i < items.len() && h.x0 == (#[trigger] items[i]).bounds.x0
            &&& exists|i: int| 0 <= i < items.len() && h.y0 == (#[trigger] items[i]).bounds.y0
            &&& exists|i: int| 0 <= i < items.len() && h.x1 == (#[trigger] items[i]).bounds.x1
            &&& exists|i: int| 0 <= i < items.len() && h.y1 == (#[trigger] items[i]).bounds.y1
        }),
    decreases items.len(),
{
    let less = items.drop_last();
    let h = hull(items);
    let g = hull(less);
    let b = items.last().bounds;
    assert(items.last() == items[items.len() - 1]);
    if less.len() > 0 {
        assert forall|i: int| 0 <= i < less.len() implies is_finite_box(
            (#[trigger] less[i]).bounds,
        ) by {
            assert(less[i] == items[i]);
        }
        law_hull_is_tight(less);
        let i0 = choose|i: int| 0 <= i < less.len() && g.x0 == (#[trigger] less[i]).bounds.x0;
        let i1 = choose|i: int| 0 <= i < less.len() && g.y0 == (#[trigger] less[i]).bounds.y0;
        let i2 = choose|i: int| 0 <= i < less.len() && g.x1 == (#[trigger] less[i]).bounds.x1;
        let i3 = choose|i: int| 0 <= i < less.len() && g.y1 == (#[trigger] less[i]).bounds.y1;
        assert(items[i0].bounds.x0 == g.x0);
        assert(items[i1].bounds.y0 == g.y0);
        assert(items[i2].bounds.x1 == g.x1);
        assert(items[i3].bounds.y1 == g.y1);
        assert forall|i: int| 0 <= i < items.len() implies h.x0.key() <= (
        #[trigger] items[i]).bounds.x0.key() && h.y0.key() <= items[i].bounds.y0.key()
            && items[i].bounds.x1.key() <= h.x1.key() && items[i].bounds.y1.key()
            <= h.y1.key() by {
            if i < less.len() {
                assert(less[i] == items[i]);
            }
        }
    } else {
        assert(h.x0 == b.x0 && h.y0 == b.y0 && h.x1 == b.x1 && h.y1 == b.y1);
    }
}

pub open spec fn is_finite_box(b: Bounds) -> bool {
    b.x0.wf() && b.y0.wf() && b.x1.wf() && b.y1.wf()
}

/// The canvas starts at the origin and is as wide and as high as it is.
pub proof fn law_canvas_is_the_reference(
    nodes: Seq<Node>,
    items: Seq<Boxed>,
    key: Option<u128>,
    canvas: (Double, Double),
)
    ensures
        ({
            let r = reference_box(nodes, items, AlignAnchor::Canvas, key, canvas);
            &&& exact(r.x0) == 0 && exact(r.y0) == 0
            &&& extent(r, true) == f_sub(canvas.0, r.x0)
            &&& r.x1 == canvas.0
            &&& r.y1 == canvas.1
        }),
{
    lemma_zero_value(Double { bits: 0 });
}

/// Boxes come in the order in which they start.
pub proof fn law_order_is_by_start(items: Seq<Boxed>, horizontal: bool)
    ensures
        forall|a: int, b: int|
            0 <= a <= b < in_order(items, horizontal).len() ==> (if horizontal {
                (#[trigger] in_order(items, horizontal)[a]).bounds.x0.key() <= (
                #[trigger] in_order(items, horizontal)[b]).bounds.x0.key()
            } else {
                in_order(items, horizontal)[a].bounds.y0.key() <= in_order(
                    items,
                    horizontal,
                )[b].bounds.y0.key()
            }),
    decreases items.len(),
{
    if items.len() > 0 {
        law_order_is_by_start(items.drop_last(), horizontal);
        lemma_put_sorted(in_order(items.drop_last(), horizontal), items.last(), horizontal);
    }
}

spec fn starts_in_order(s: Seq<Boxed>, horizontal: bool) -> bool {
    forall|a: int, b: int|
        0 <= a <= b < s.len() ==> lead((#[trigger] s[a]).bounds, horizontal).key() <= lead(
            (#[trigger] s[b]).bounds,
            horizontal,
        ).key()
}

proof fn lemma_put_sorted(s: Seq<Boxed>, x: Boxed, horizontal: bool)
    requires
        starts_in_order(s, horizontal),
    ensures
        starts_in_order(put_in_order(s, x, horizontal), horizontal),
        forall|a: int|
            0 <= a < put_in_order(s, x, horizontal).len() ==> (#[trigger] put_in_order(
                s,
                x,
                horizontal,
            )[a]) == x || s.contains(put_in_order(s, x, horizontal)[a]),
    decreases s.len(),
{
    let out = put_in_order(s, x, horizontal);
    if s.len() > 0 && lead(s.last().bounds, horizontal).key() > lead(x.bounds, horizontal).key() {
        let less = s.drop_last();
        assert forall|a: int, b: int| 0 <= a <= b < less.len() implies lead(
            (#[trigger] less[a]).bounds,
            horizontal,
        ).key() <= lead((#[trigger] less[b]).bounds, horizontal).key() by {
            assert(less[a] == s[a] && less[b] == s[b]);
        }
        lemma_put_sorted(less, x, horizontal);
        let inner = put_in_order(less, x, horizontal);
        assert forall|a: int| 0 <= a < inner.len() implies lead(
            (#[trigger] inner[a]).bounds,
            horizontal,
        ).key() <= lead(s.last().bounds, horizontal).key() by {
            if inner[a] != x {
                let c = choose|c: int| 0 <= c < less.len() && less[c] == inner[a];
                assert(s[c] == inner[a]);
                assert(s[s.len() - 1] == s.last());
            }
        }
        assert forall|a: int| 0 <= a < out.len() implies (#[trigger] out[a]) == x || s.contains(
            out[a],
        ) by {
            if a < inner.len() {
                assert(out[a] == inner[a]);
                if inner[a] != x {
                    let c = choose|c: int| 0 <= c < less.len() && less[c] == inner[a];
                    assert(s[c] == inner[a]);
                }
            } else {
                assert(s[s.len() - 1] == out[a]);
            }
        }
    } else {
        assert forall|a: int| 0 <= a < out.len() implies (#[trigger] out[a]) == x || s.contains(
            out[a],
        ) by {
            if a < s.len() {
                assert(s[a] == out[a]);
            }
        }
        assert forall|a: int, b: int| 0 <= a <= b < out.len() implies lead(
            (#[trigger] out[a]).bounds,
            horizontal,
        ).key() <= lead((#[trigger] out[b]).bounds, horizontal).key() by {
            if a < s.len() {
                assert(out[a] == s[a]);
                assert(s[s.len() - 1] == s.last());
                assert(lead(s[a].bounds, horizontal).key() <= lead(
                    s[s.len() - 1].bounds,
                    horizontal,
                ).key());
            }
            if b < s.len() {
                assert(out[b] == s[b]);
            }
        }
    }
}


proof fn lemma_plain_extent(b: Bounds, horizontal: bool, j: nat)
    requires
        is_plain_box(b, j),
    ensures
        is_multiple(extent(b, horizontal), j, steps(extent(b, horizontal), j)),
        -0x8000_0000 <= steps(extent(b, horizontal), j) <= 0x8000_0000,
        exact(extent(b, horizontal)) == exact(trail(b, horizontal)) - exact(lead(b, horizontal)),
{
    let a = trail(b, horizontal);
    let c = lead(b, horizontal);
    lemma_difference_of_steps(a, c, j, steps(a, j), steps(c, j));
    lemma_steps(extent(b, horizontal), j, steps(a, j) - steps(c, j));
    let p = power(2, j);
    let m = steps(a, j);
    let n = steps(c, j);
    assert((m - n) * p == m * p - n * p) by (nonlinear_arith);
}

/// The width of the cells of a grid.
pub open spec fn cell_width_of(items: Seq<Boxed>, args: LayoutNodesArgs) -> Double {
    or_default(args.cell_width, widest(items, true))
}

/// The height of the cells of a grid.
pub open spec fn cell_height_of(items: Seq<Boxed>, args: LayoutNodesArgs) -> Double {
    or_default(args.cell_height, widest(items, false))
}

/// What a grid is laid out with is in whole numbers of steps.
pub open spec fn is_plain_grid(items: Seq<Boxed>, args: LayoutNodesArgs, j: nat) -> bool {
    &&& args.layout == LayoutMode::Grid
    &&& are_plain_boxes(items, j)
    &&& is_plain(or_default(args.x, hull(items).x0), j)
    &&& is_plain(or_default(args.y, hull(items).y0), j)
    &&& is_plain(cell_width_of(items, args), j)
    &&& is_plain(cell_height_of(items, args), j)
    &&& is_plain(or_default(args.gap_x, whole(20)), j)
    &&& is_plain(or_default(args.gap_y, whole(20)), j)
    &&& items.len() <= 0x10_0000
}

/// Twice the middle, in units, of a node that is laid out.
pub open spec fn laid_out_middle(
    items: Seq<Boxed>,
    args: LayoutNodesArgs,
    columns: nat,
    i: int,
) -> (int, int) {
    let at = layout_target(items, args, columns, i);
    let b = items[i].bounds;
    (
        2 * exact(at.0) + exact(b.x1) - exact(b.x0),
        2 * exact(at.1) + exact(b.y1) - exact(b.y0),
    )
}

proof fn lemma_grid_middle(items: Seq<Boxed>, args: LayoutNodesArgs, columns: nat, i: int, j: nat)
    requires
        is_plain_grid(items, args, j),
        columns > 0,
        0 <= i < items.len(),
    ensures
        ({
            let m = laid_out_middle(items, args, columns, i);
            let w = exact(cell_width_of(items, args));
            let h = exact(cell_height_of(items, args));
            &&& m.0 == 2 * exact(or_default(args.x, hull(items).x0)) + 2 * ((i as nat % columns)
                * (w + exact(or_default(args.gap_x, whole(20))))) + w
            &&& m.1 == 2 * exact(or_default(args.y, hull(items).y0)) + 2 * ((i as nat / columns)
                * (h + exact(or_default(args.gap_y, whole(20))))) + h
        }),
{
    let b = items[i].bounds;
    lemma_plain_extent(b, true, j);
    lemma_plain_extent(b, false, j);
    lemma_place_bounds(i as nat, columns);
    lemma_middle_of_cell(
        or_default(args.x, hull(items).x0),
        i as nat % columns,
        cell_width_of(items, args),
        or_default(args.gap_x, whole(20)),
        extent(b, true),
        j,
    );
    lemma_middle_of_cell(
        or_default(args.y, hull(items).y0),
        i as nat / columns,
        cell_height_of(items, args),
        or_default(args.gap_y, whole(20)),
        extent(b, false),
        j,
    );
}

/// In a grid the next node of a row stands beside the one before it: their middles are at
/// one height, and a cell and a gap apart.
pub proof fn law_grid_fills_rows(
    items: Seq<Boxed>,
    args: LayoutNodesArgs,
    columns: nat,
    i: int,
    j: nat,
)
    requires
        is_plain_grid(items, args, j),
        columns > 0,
        0 <= i < items.len() - 1,
        (i as nat + 1) % columns != 0,
    ensures
        ({
            let a = laid_out_middle(items, args, columns, i);
            let b = laid_out_middle(items, args, columns, i + 1);
            let step = exact(cell_width_of(items, args)) + exact(
                or_default(args.gap_x, whole(20)),
            );
            b.0 == a.0 + 2 * step && b.1 == a.1
        }),
{
    lemma_grid_middle(items, args, columns, i, j);
    lemma_grid_middle(items, args, columns, i + 1, j);
    lemma_next_column(i as nat, columns);
    let k = (i as nat % columns) as int;
    let step = exact(cell_width_of(items, args)) + exact(or_default(args.gap_x, whole(20)));
    assert((k + 1) * step == k * step + step) by (nonlinear_arith);
}

/// In a grid so many nodes on as there are columns is straight below: the middles are
/// above one another, and a cell and a gap apart.
pub proof fn law_grid_fills_columns(
    items: Seq<Boxed>,
    args: LayoutNodesArgs,
    columns: nat,
    i: int,
    j: nat,
)
    requires
        is_plain_grid(items, args, j),
        columns > 0,
        0 <= i < items.len() - columns,
    ensures
        ({
            let a = laid_out_middle(items, args, columns, i);
            let b = laid_out_middle(items, args, columns, i + columns);
            let step = exact(cell_height_of(items, args)) + exact(
                or_default(args.gap_y, whole(20)),
            );
            b.0 == a.0 && b.1 == a.1 + 2 * step
        }),
{
    lemma_grid_middle(items, args, columns, i, j);
    lemma_grid_middle(items, args, columns, i + columns, j);
    lemma_next_row(i as nat, columns);
    let k = (i as nat / columns) as int;
    let step = exact(cell_height_of(items, args)) + exact(or_default(args.gap_y, whole(20)));
    assert((k + 1) * step == k * step + step) by (nonlinear_arith);
}

/// The first node of a grid stands in the middle of the cell at the corner of the grid.
pub proof fn law_grid_starts_at_its_corner(
    items: Seq<Boxed>,
    args: LayoutNodesArgs,
    columns: nat,
    j: nat,
)
    requires
        is_plain_grid(items, args, j),
        columns > 0,
        items.len() > 0,
    ensures
        ({
            let m = laid_out_middle(items, args, columns, 0);
            &&& m.0 == 2 * exact(or_default(args.x, hull(items).x0)) + exact(
                cell_width_of(items, args),
            )
            &&& m.1 == 2 * exact(or_default(args.y, hull(items).y0)) + exact(
                cell_height_of(items, args),
            )
        }),
{
    lemma_grid_middle(items, args, columns, 0, j);
    lemma_place_bounds(0, columns);
    let w = exact(cell_width_of(items, args)) + exact(or_default(args.gap_x, whole(20)));
    let h = exact(cell_height_of(items, args)) + exact(or_default(args.gap_y, whole(20)));
    assert(0 * w == 0 && 0 * h == 0);
}

/// In a grid the height of a node has nothing to do with the column that it stands in, nor
/// its place along the row with the rows: nodes of one row and of one height start at one
/// height, and nodes of one column and of one width start above one another.
pub proof fn law_grid_is_aligned(
    items: Seq<Boxed>,
    args: LayoutNodesArgs,
    columns: nat,
    i: int,
    k: int,
)
    requires
        args.layout == LayoutMode::Grid,
        columns > 0,
        0 <= i < items.len(),
        0 <= k < items.len(),
    ensures
        i as nat / columns == k as nat / columns && f_sub(
            items[i].bounds.y1,
            items[i].bounds.y0,
        ) == f_sub(items[k].bounds.y1, items[k].bounds.y0) ==> layout_target(
            items,
            args,
            columns,
            i,
        ).1 == layout_target(items, args, columns, k).1,
        i as nat % columns == k as nat % columns && f_sub(
            items[i].bounds.x1,
            items[i].bounds.x0,
        ) == f_sub(items[k].bounds.x1, items[k].bounds.x0) ==> layout_target(
            items,
            args,
            columns,
            i,
        ).0 == layout_target(items, args, columns, k).0,
{
}

/// What a stack is laid out with is in whole numbers of steps.
pub open spec fn is_plain_stack(items: Seq<Boxed>, args: LayoutNodesArgs, j: nat) -> bool {
    &&& args.layout == LayoutMode::StackHorizontal || args.layout == LayoutMode::StackVertical
    &&& are_plain_boxes(items, j)
    &&& is_plain(or_default(args.x, hull(items).x0), j)
    &&& is_plain(or_default(args.y, hull(items).y0), j)
    &&& is_plain(widest(items, true), j)
    &&& is_plain(widest(items, false), j)
    &&& is_plain(or_default(args.gap, whole(20)), j)
    &&& items.len() <= 0x10_0000
}

proof fn lemma_stack_start(
    items: Seq<Boxed>,
    from: Double,
    horizontal: bool,
    gap: Double,
    i: nat,
    j: nat,
)
    requires
        are_plain_boxes(items, j),
        i <= items.len() <= 0x10_0000,
        is_plain(from, j),
        is_plain(gap, j),
    ensures
        ({
            let s = stack_start(items, from, horizontal, gap, i);
            &&& is_multiple(s, j, steps(s, j))
            &&& -0x4000_0000 - i * 0x1_0000_0000 <= steps(s, j) <= 0x4000_0000 + i * 0x1_0000_0000
        }),
    decreases i,
{
    if i > 0 {
        let k = (i - 1) as nat;
        lemma_stack_start(items, from, horizontal, gap, k, j);
        let s = stack_start(items, from, horizontal, gap, k);
        let e = extent(items[i - 1].bounds, horizontal);
        lemma_plain_extent(items[i - 1].bounds, horizontal, j);
        lemma_sum_of_steps(e, gap, j, steps(e, j), steps(gap, j));
        let n = steps(e, j) + steps(gap, j);
        lemma_sum_of_steps(s, f_add(e, gap), j, steps(s, j), n);
        lemma_steps(f_add(s, f_add(e, gap)), j, steps(s, j) + n);
    }
}

/// In a stack each node starts a gap behind the end of the one before it, and the first
/// starts at the start of the stack.
pub proof fn law_stack_leaves_gaps(items: Seq<Boxed>, args: LayoutNodesArgs, i: int, j: nat)
    requires
        is_plain_stack(items, args, j),
        0 <= i < items.len(),
    ensures
        ({
            let a = layout_target(items, args, 1, i);
            let b = items[i].bounds;
            let gap = exact(or_default(args.gap, whole(20)));
            let c = layout_target(items, args, 1, i + 1);
            if args.layout == LayoutMode::StackHorizontal {
                &&& i == 0 ==> exact(a.0) == exact(or_default(args.x, hull(items).x0))
                &&& i + 1 < items.len() ==> exact(c.0) == exact(a.0) + (exact(b.x1) - exact(b.x0))
                    + gap
            } else {
                &&& i == 0 ==> exact(a.1) == exact(or_default(args.y, hull(items).y0))
                &&& i + 1 < items.len() ==> exact(c.1) == exact(a.1) + (exact(b.y1) - exact(b.y0))
                    + gap
            }
        }),
{
    let horizontal = args.layout == LayoutMode::StackHorizontal;
    let from = if horizontal {
        or_default(args.x, hull(items).x0)
    } else {
        or_default(args.y, hull(items).y0)
    };
    let gap = or_default(args.gap, whole(20));
    if i + 1 < items.len() {
        let b = items[i].bounds;
        let s = stack_start(items, from, horizontal, gap, i as nat);
        lemma_stack_start(items, from, horizontal, gap, i as nat, j);
        lemma_plain_extent(b, horizontal, j);
        let e = extent(b, horizontal);
        lemma_sum_of_steps(e, gap, j, steps(e, j), steps(gap, j));
        lemma_sum_of_steps(s, f_add(e, gap), j, steps(s, j), steps(e, j) + steps(gap, j));
        let p = power(2, j);
        let x = steps(s, j);
        let y = steps(e, j);
        let z = steps(gap, j);
        assert((x + (y + z)) * p == x * p + y * p + z * p) by (nonlinear_arith);
        assert(stack_start(items, from, horizontal, gap, (i + 1) as nat) == f_add(
            s,
            f_add(e, gap),
        ));
    }
}

/// Across a stack the starts, the middles or the ends of all nodes stand in line with those
/// of the largest, which starts where the stack does.
pub proof fn law_stack_is_in_line(items: Seq<Boxed>, args: LayoutNodesArgs, i: int, j: nat)
    requires
        is_plain_stack(items, args, j),
        0 <= i < items.len(),
    ensures
        ({
            let a = layout_target(items, args, 1, i);
            let b = items[i].bounds;
            let (at, size, start, room) = if args.layout == LayoutMode::StackHorizontal {
                (
                    exact(a.1),
                    exact(b.y1) - exact(b.y0),
                    exact(or_default(args.y, hull(items).y0)),
                    exact(widest(items, false)),
                )
            } else {
                (
                    exact(a.0),
                    exact(b.x1) - exact(b.x0),
                    exact(or_default(args.x, hull(items).x0)),
                    exact(widest(items, true)),
                )
            };
            match args.align {
                CrossAxisAlign::Start => at == start,
                CrossAxisAlign::Center => 2 * at + size == 2 * start + room,
                CrossAxisAlign::End => at + size == start + room,
            }
        }),
{
    let horizontal = args.layout == LayoutMode::StackHorizontal;
    let from = if horizontal {
        or_default(args.y, hull(items).y0)
    } else {
        or_default(args.x, hull(items).x0)
    };
    let room = widest(items, !horizontal);
    let b = items[i].bounds;
    let size = extent(b, !horizontal);
    lemma_plain_extent(b, !horizontal, j);
    let p = power(2, j);
    let f = steps(from, j);
    let m = steps(room, j);
    let n = steps(size, j);
    lemma_sum_of_steps(from, room, j, f, m);
    lemma_difference_of_steps(f_add(from, room), size, j, f + m, n);
    assert((f + m - n) * p == f * p + m * p - n * p) by (nonlinear_arith);
    let k = (j - 1) as nat;
    let q = power(2, k);
    assert(p == 2 * q);
    lemma_finer(from, j, f);
    lemma_finer(room, j, m);
    lemma_finer(size, j, n);
    lemma_half_of_steps(room, k, m);
    lemma_half_of_steps(size, k, n);
    lemma_sum_of_steps(from, half(room), k, 2 * f, m);
    lemma_difference_of_steps(f_add(from, half(room)), half(size), k, 2 * f + m, n);
    assert(2 * ((2 * f + m - n) * q) + n * p == 2 * (f * p) + m * p) by (nonlinear_arith)
        requires
            p == 2 * q,
    ;
}

/// A node that a layout moves comes to start where the layout has its place.
pub proof fn law_laid_out_nodes_reach_their_places(
    items: Seq<Boxed>,
    args: LayoutNodesArgs,
    columns: nat,
    n: nat,
    j: nat,
    a: int,
)
    requires
        n <= items.len(),
        are_plain_boxes(items, j),
        forall|k: int|
            0 <= k < n ==> is_plain((#[trigger] layout_target(items, args, columns, k)).0, j)
                && is_plain(layout_target(items, args, columns, k).1, j),
        0 <= a < layout_moves(items, args, columns, n).len(),
    ensures
        exists|k: int|
            0 <= k < n && ({
                let m = layout_moves(items, args, columns, n)[a];
                let at = #[trigger] layout_target(items, args, columns, k);
                &&& m.position == items[k].position
                &&& exact(items[k].bounds.x0) + exact(m.dx) == exact(at.0)
                &&& exact(items[k].bounds.y0) + exact(m.dy) == exact(at.1)
            }),
    decreases n,
{
    let before = layout_moves(items, args, columns, (n - 1) as nat);
    if a < before.len() {
        law_laid_out_nodes_reach_their_places(items, args, columns, (n - 1) as nat, j, a);
    } else {
        let k = n - 1;
        let at = layout_target(items, args, columns, k);
        let b = items[k].bounds;
        lemma_exact_difference(at.0, b.x0, j);
        lemma_exact_difference(at.1, b.y0, j);
    }
}

/// A layout moves every node that is off its place by a pixel or more.
pub proof fn law_layout_moves_nodes_that_are_off(
    items: Seq<Boxed>,
    args: LayoutNodesArgs,
    columns: nat,
    n: nat,
    j: nat,
    k: int,
)
    requires
        0 <= k < n <= items.len(),
        are_plain_boxes(items, j),
        is_plain(layout_target(items, args, columns, k).0, j),
        is_plain(layout_target(items, args, columns, k).1, j),
        abs(exact(layout_target(items, args, columns, k).0) - exact(items[k].bounds.x0))
            >= one_units() || abs(
            exact(layout_target(items, args, columns, k).1) - exact(items[k].bounds.y0),
        ) >= one_units(),
    ensures
        exists|a: int|
            0 <= a < layout_moves(items, args, columns, n).len() && (
            #[trigger] layout_moves(items, args, columns, n)[a]).position == items[k].position,
    decreases n,
{
    let before = layout_moves(items, args, columns, (n - 1) as nat);
    if k < n - 1 {
        law_layout_moves_nodes_that_are_off(items, args, columns, (n - 1) as nat, j, k);
        let a = choose|a: int|
            0 <= a < before.len() && (#[trigger] before[a]).position == items[k].position;
        assert(layout_moves(items, args, columns, n)[a].position == items[k].position);
    } else {
        let at = layout_target(items, args, columns, k);
        let b = items[k].bounds;
        lemma_exact_difference(at.0, b.x0, j);
        lemma_exact_difference(at.1, b.y0, j);
        lemma_not_still((f_sub(at.0, b.x0), f_sub(at.1, b.y0)));
        assert(layout_moves(items, args, columns, n)[before.len() as int].position
            == items[k].position);
    }
}

/// On a circle a node in the direction of an axis has its middle as far from the centre
/// along this axis as the radius says, and at the centre along the other one; along each
/// axis the place depends on nothing that belongs to the other.
pub proof fn law_circle_is_about_its_centre(
    items: Seq<Boxed>,
    args: LayoutNodesArgs,
    columns: nat,
    i: int,
    right: nat,
    down: nat,
    j: nat,
)
    requires
        args.layout == LayoutMode::Circle,
        are_plain_boxes(items, j),
        0 <= i < items.len(),
        args.directions@[i] == (whole(right), whole(down)),
        right <= 1,
        down <= 1,
        args.cx matches Some(cx) && is_plain(cx, j),
        args.cy matches Some(cy) && is_plain(cy, j),
        args.radius matches Some(r) && is_plain(r, j),
    ensures
        ({
            let m = laid_out_middle(items, args, columns, i);
            &&& m.0 == 2 * exact(args.cx->0) + 2 * (right * exact(args.radius->0))
            &&& m.1 == 2 * exact(args.cy->0) + 2 * (down * exact(args.radius->0))
        }),
{
    let b = items[i].bounds;
    lemma_plain_extent(b, true, j);
    lemma_plain_extent(b, false, j);
    lemma_middle_on_circle(args.cx->0, args.radius->0, right, extent(b, true), j);
    lemma_middle_on_circle(args.cy->0, args.radius->0, down, extent(b, false), j);
}

proof fn lemma_middle_on_circle(c: Double, r: Double, d: nat, w: Double, j: nat)
    requires
        is_plain(c, j),
        is_plain(r, j),
        d <= 1,
        is_multiple(w, j, steps(w, j)),
        -0x8000_0000 <= steps(w, j) <= 0x8000_0000,
    ensures
        ({
            let x = f_sub(f_add(c, f_mul(r, whole(d))), half(w));
            2 * exact(x) + exact(w) == 2 * exact(c) + 2 * (d * exact(r))
        }),
{
    let p = power(2, j);
    let k = (j - 1) as nat;
    let q = power(2, k);
    assert(p == 2 * q);
    let cc = steps(c, j);
    let rr = steps(r, j);
    let n = steps(w, j);
    let dd = d as int;
    assert(-0x4000_0000 <= dd * rr <= 0x4000_0000) by (nonlinear_arith)
        requires
            0 <= dd <= 1,
            -0x4000_0000 <= rr <= 0x4000_0000,
    ;
    lemma_times_steps(d, r, j, rr);
    lemma_sum_of_steps(c, f_mul(r, whole(d)), j, cc, dd * rr);
    lemma_finer(f_add(c, f_mul(r, whole(d))), j, cc + dd * rr);
    lemma_finer(w, j, n);
    lemma_half_of_steps(w, k, n);
    lemma_difference_of_steps(
        f_add(c, f_mul(r, whole(d))),
        half(w),
        k,
        2 * (cc + dd * rr),
        n,
    );
    assert(2 * ((2 * (cc + dd * rr) - n) * q) + n * p == 2 * (cc * p) + 2 * (dd * (rr * p)))
        by (nonlinear_arith)
        requires
            p == 2 * q,
    ;
}

/// Along each axis of a circle the place of a node depends on the direction, the centre and
/// the boxes along this axis alone.
pub proof fn law_circle_axes_are_apart(
    items: Seq<Boxed>,
    args: LayoutNodesArgs,
    other: LayoutNodesArgs,
    columns: nat,
    i: int,
)
    requires
        args.layout == LayoutMode::Circle,
        other.layout == LayoutMode::Circle,
        args.radius == other.radius,
    ensures
        args.cx == other.cx && args.directions@[i].0 == other.directions@[i].0 ==> layout_target(
            items,
            args,
            columns,
            i,
        ).0 == layout_target(items, other, columns, i).0,
        args.cy == other.cy && args.directions@[i].1 == other.directions@[i].1 ==> layout_target(
            items,
            args,
            columns,
            i,
        ).1 == layout_target(items, other, columns, i).1,
{
}

proof fn lemma_exact_difference(a: Double, b: Double, j: nat)
    requires
        is_plain(a, j),
        is_plain(b, j),
    ensures
        f_sub(a, b).wf(),
        exact(f_sub(a, b)) == exact(a) - exact(b),
{
    let p = power(2, j);
    let m = steps(a, j);
    let n = steps(b, j);
    lemma_difference_of_steps(a, b, j, m, n);
    assert((m - n) * p == m * p - n * p) by (nonlinear_arith);
}

/// Distributing moves nodes along one axis only, and brings each to its place: the first
/// stays, and each further one starts a gap behind the end of the one before it.
pub proof fn law_distributed_nodes_have_one_gap(
    items: Seq<Boxed>,
    horizontal: bool,
    gap: Double,
    k: int,
    j: nat,
)
    requires
        are_plain_boxes(items, j),
        is_plain(gap, j),
        0 <= k < items.len() <= 0x10_0000,
    ensures
        ({
            let s = in_order(items, horizontal);
            let b = s[k].bounds;
            let at = exact(spaced_start(s, horizontal, gap, k as nat));
            let next = exact(spaced_start(s, horizontal, gap, (k + 1) as nat));
            let size = if horizontal {
                exact(b.x1) - exact(b.x0)
            } else {
                exact(b.y1) - exact(b.y0)
            };
            &&& next == at + size + exact(gap)
            &&& k == 0 ==> at == if horizontal {
                exact(b.x0)
            } else {
                exact(b.y0)
            }
        }),
{
    let s = in_order(items, horizontal);
    lemma_order_plain(items, horizontal, j);
    lemma_spaced_is_stacked(s, horizontal, gap, k as nat);
    lemma_spaced_is_stacked(s, horizontal, gap, (k + 1) as nat);
    let from = lead(s[0].bounds, horizontal);
    lemma_stack_start(s, from, horizontal, gap, k as nat, j);
    let a = stack_start(s, from, horizontal, gap, k as nat);
    let e = extent(s[k].bounds, horizontal);
    lemma_plain_extent(s[k].bounds, horizontal, j);
    lemma_sum_of_steps(e, gap, j, steps(e, j), steps(gap, j));
    lemma_sum_of_steps(a, f_add(e, gap), j, steps(a, j), steps(e, j) + steps(gap, j));
    let p = power(2, j);
    let x = steps(a, j);
    let y = steps(e, j);
    let z = steps(gap, j);
    assert((x + (y + z)) * p == x * p + y * p + z * p) by (nonlinear_arith);
}

proof fn lemma_spaced_is_stacked(s: Seq<Boxed>, horizontal: bool, gap: Double, k: nat)
    ensures
        spaced_start(s, horizontal, gap, k) == stack_start(
            s,
            lead(s[0].bounds, horizontal),
            horizontal,
            gap,
            k,
        ),
    decreases k,
{
    if k > 0 {
        lemma_spaced_is_stacked(s, horizontal, gap, (k - 1) as nat);
    }
}

proof fn lemma_order_plain(items: Seq<Boxed>, horizontal: bool, j: nat)
    requires
        are_plain_boxes(items, j),
    ensures
        are_plain_boxes(in_order(items, horizontal), j),
        in_order(items, horizontal).len() == items.len(),
    decreases items.len(),
{
    lemma_order_len(items, horizontal);
    if items.len() > 0 {
        let less = items.drop_last();
        assert(are_plain_boxes(less, j)) by {
            assert forall|i: int| 0 <= i < less.len() implies is_plain_box(
                (#[trigger] less[i]).bounds,
                j,
            ) by {
                assert(less[i] == items[i]);
            }
        }
        lemma_order_plain(less, horizontal, j);
        let s = in_order(less, horizontal);
        lemma_put_keeps(s, items.last(), horizontal);
        let out = in_order(items, horizontal);
        assert forall|i: int| 0 <= i < out.len() implies is_plain_box(
            (#[trigger] out[i]).bounds,
            j,
        ) by {
            assert(items[items.len() - 1] == items.last());
            if out[i] != items.last() {
                let c = choose|c: int| 0 <= c < s.len() && s[c] == out[i];
                assert(is_plain_box(s[c].bounds, j));
            }
        }
    }
}

proof fn lemma_put_keeps(s: Seq<Boxed>, x: Boxed, horizontal: bool)
    ensures
        forall|a: int|
            0 <= a < put_in_order(s, x, horizontal).len() ==> (#[trigger] put_in_order(
                s,
                x,
                horizontal,
            )[a]) == x || s.contains(put_in_order(s, x, horizontal)[a]),
    decreases s.len(),
{
    let out = put_in_order(s, x, horizontal);
    if s.len() > 0 && lead(s.last().bounds, horizontal).key() > lead(x.bounds, horizontal).key() {
        let less = s.drop_last();
        lemma_put_keeps(less, x, horizontal);
        let inner = put_in_order(less, x, horizontal);
        assert forall|a: int| 0 <= a < out.len() implies (#[trigger] out[a]) == x || s.contains(
            out[a],
        ) by {
            if a < inner.len() {
                assert(out[a] == inner[a]);
                if inner[a] != x {
                    let c = choose|c: int| 0 <= c < less.len() && less[c] == inner[a];
                    assert(s[c] == inner[a]);
                }
            } else {
                assert(s[s.len() - 1] == out[a]);
            }
        }
    } else {
        assert forall|a: int| 0 <= a < out.len() implies (#[trigger] out[a]) == x || s.contains(
            out[a],
        ) by {
            if a < s.len() {
                assert(s[a] == out[a]);
            }
        }
    }
}

/// The operation that distributes nodes along an axis.
pub open spec fn distribution(horizontal: bool) -> AlignOperation {
    if horizontal {
        AlignOperation::DistributeHorizontal
    } else {
        AlignOperation::DistributeVertical
    }
}

/// A node that distributing moves comes to start at its place and keeps its place along the
/// other axis.
pub proof fn law_distributed_nodes_reach_their_places(
    items: Seq<Boxed>,
    to: Bounds,
    horizontal: bool,
    spacing: Option<Double>,
    j: nat,
    a: int,
)
    requires
        are_plain_boxes(items, j),
        is_plain(even_gap(in_order(items, horizontal), horizontal, spacing), j),
        items.len() <= 0x10_0000,
        0 <= a < arranged(items, to, distribution(horizontal), spacing).len(),
    ensures
        ({
            let s = in_order(items, horizontal);
            let gap = even_gap(s, horizontal, spacing);
            let m = arranged(items, to, distribution(horizontal), spacing)[a];
            &&& exists|k: int|
                0 <= k < s.len() && ({
                    let at = exact(#[trigger] spaced_start(s, horizontal, gap, k as nat));
                    &&& m.position == s[k].position
                    &&& if horizontal {
                        exact(s[k].bounds.x0) + exact(m.dx) == at && exact(m.dy) == 0
                    } else {
                        exact(s[k].bounds.y0) + exact(m.dy) == at && exact(m.dx) == 0
                    }
                })
            &&& spacing matches Some(given) ==> gap == given
        }),
{
    let s = in_order(items, horizontal);
    lemma_order_plain(items, horizontal, j);
    let gap = even_gap(s, horizontal, spacing);
    let k = lemma_spread_move(s, horizontal, gap, s.len(), j, a);
    assert(0 <= k < s.len());
    let at = spaced_start(s, horizontal, gap, k as nat);
}

proof fn lemma_spread_move(
    s: Seq<Boxed>,
    horizontal: bool,
    gap: Double,
    n: nat,
    j: nat,
    a: int,
) -> (k: int)
    requires
        are_plain_boxes(s, j),
        is_plain(gap, j),
        n <= s.len() <= 0x10_0000,
        0 <= a < spread_moves(s, horizontal, gap, n).len(),
    ensures
        0 <= k < n,
        ({
            let m = spread_moves(s, horizontal, gap, n)[a];
            let at = exact(spaced_start(s, horizontal, gap, k as nat));
            &&& m.position == s[k].position
            &&& if horizontal {
                exact(s[k].bounds.x0) + exact(m.dx) == at && exact(m.dy) == 0
            } else {
                exact(s[k].bounds.y0) + exact(m.dy) == at && exact(m.dx) == 0
            }
        }),
    decreases n,
{
    let before = spread_moves(s, horizontal, gap, (n - 1) as nat);
    if a < before.len() {
        lemma_spread_move(s, horizontal, gap, (n - 1) as nat, j, a)
    } else {
        let k = n - 1;
        lemma_zero_value(Double { bits: 0 });
        lemma_spaced_is_stacked(s, horizontal, gap, k as nat);
        let l = lead(s[k].bounds, horizontal);
        assert(is_plain_box(s[0].bounds, j));
        lemma_stack_start(s, lead(s[0].bounds, horizontal), horizontal, gap, k as nat, j);
        let at = spaced_start(s, horizontal, gap, k as nat);
        lemma_difference_of_steps(at, l, j, steps(at, j), steps(l, j));
        let p = power(2, j);
        let x = steps(at, j);
        let y = steps(l, j);
        assert((x - y) * p == x * p - y * p) by (nonlinear_arith);
        k
    }
}

/// Where no distance is given, what the outermost nodes leave is shared evenly: all the
/// gaps and all the nodes together fill what there is, wherever it divides evenly.
pub proof fn law_gap_shares_the_room(s: Seq<Boxed>, horizontal: bool, share: int, j: nat)
    requires
        are_plain_boxes(s, j),
        2 <= s.len() <= 0x10_0000,
        -0x4000_0000 <= share <= 0x4000_0000,
        exact(trail(s.last().bounds, horizontal)) - exact(lead(s[0].bounds, horizontal))
            - extent_units(s, horizontal) == (s.len() - 1) * (share * power(2, j)),
    ensures
        exact(even_gap(s, horizontal, None)) == share * power(2, j),
{
    lemma_total_extent(s, horizontal, j);
    let first = lead(s[0].bounds, horizontal);
    let last = trail(s.last().bounds, horizontal);
    assert(s.last() == s[s.len() - 1]);
    let p = power(2, j);
    let n = (s.len() - 1) as nat;
    let t = total_extent(s, horizontal);
    lemma_difference_of_steps(last, first, j, steps(last, j), steps(first, j));
    let d = f_sub(last, first);
    let m = steps(last, j) - steps(first, j);
    lemma_difference_of_steps(d, t, j, m, steps(t, j));
    let x = steps(last, j);
    let y = steps(first, j);
    let z = steps(t, j);
    lemma_power_positive(2, j);
    assert(m - z == n * share) by (nonlinear_arith)
        requires
            m == x - y,
            x * p - y * p - z * p == n * (share * p),
            p > 0,
    ;
    lemma_share_of_steps(f_sub(d, t), n, j, share);
}

/// The extents of boxes together, in units.
pub open spec fn extent_units(s: Seq<Boxed>, horizontal: bool) -> int
    decreases s.len(),
{
    if s.len() == 0 {
        0
    } else {
        let b = s.last().bounds;
        extent_units(s.drop_last(), horizontal) + if horizontal {
            exact(b.x1) - exact(b.x0)
        } else {
            exact(b.y1) - exact(b.y0)
        }
    }
}

proof fn lemma_total_extent(s: Seq<Boxed>, horizontal: bool, j: nat)
    requires
        are_plain_boxes(s, j),
        s.len() <= 0x10_0000,
        j <= 2000,
    ensures
        ({
            let t = total_extent(s, horizontal);
            &&& is_multiple(t, j, steps(t, j))
            &&& exact(t) == extent_units(s, horizontal)
            &&& -s.len() * 0x8000_0000 <= steps(t, j) <= s.len() * 0x8000_0000
        }),
    decreases s.len(),
{
    let p = power(2, j);
    if s.len() == 0 {
        lemma_zero_value(Double { bits: 0 });
        assert(0 * p == 0);
        lemma_steps(Double { bits: 0 }, j, 0);
    } else {
        let less = s.drop_last();
        assert(are_plain_boxes(less, j)) by {
            assert forall|i: int| 0 <= i < less.len() implies is_plain_box(
                (#[trigger] less[i]).bounds,
                j,
            ) by {
                assert(less[i] == s[i]);
            }
        }
        lemma_total_extent(less, horizontal, j);
        assert(s.last() == s[s.len() - 1]);
        lemma_plain_extent(s.last().bounds, horizontal, j);
        let t = total_extent(less, horizontal);
        let e = extent(s.last().bounds, horizontal);
        lemma_sum_of_steps(t, e, j, steps(t, j), steps(e, j));
        lemma_steps(f_add(t, e), j, steps(t, j) + steps(e, j));
        let x = steps(t, j);
        let y = steps(e, j);
        assert((x + y) * p == x * p + y * p) by (nonlinear_arith);
    }
}


/// Nodes on a circle share a full turn evenly, from the angle that it starts at, where their
/// number divides it.
pub proof fn law_circle_shares_the_turn(start: Double, n: nat, i: nat, step: nat, j: nat)
    requires
        n > 0,
        n * step == 360,
        i <= n,
        1066 <= j <= 1074,
        is_plain(start, j),
    ensures
        exact(circle_angle(start, n, i)) == exact(start) + i * (step * one_units()),
{
    assert(n <= 360 && step <= 360) by (nonlinear_arith)
        requires
            n * step == 360,
            n > 0,
    ;
    lemma_whole_share(n, step, j);
    let part = f_div(whole(360), whole(n));
    let most: int = 0x400 * (step as int);
    assert(i * most <= 360 * 0x6_0000) by (nonlinear_arith)
        requires
            i <= 360,
            0 <= most <= 0x6_0000,
    ;
    lemma_times(i, part, j, most);
    lemma_plain(start, j);
    lemma_add(start, f_mul(whole(i), part), j, 0x4000_0000, i * most);
}

} // verus!
