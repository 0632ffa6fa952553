//! Pushing nodes apart until their boxes do not overlap.
use crate::arrange::{given_or_default, or_default, Move};
use crate::bezier::{Bounds, ONE};
use crate::bignum::power;
use crate::canvas::{box_of_path, path_box};
use crate::double::{Double, SIGN};
use crate::float::{
    absolute, at_most, exact, f_abs, f_add, f_at_most, f_less, f_max, f_min, f_mul, f_neg, f_sub,
    from_count, half, halved, less, maximum, minimum, minus, plus, times, whole,
};
use crate::scene::{
    entries_for, find_node, has_node, one_entry, position_of, resolve_targets, targets, Node,
    NodeKind,
};
use crate::steps::{
    is_plain, lemma_add, lemma_half, lemma_neg, lemma_one, lemma_order, lemma_plain,
    lemma_product_mirrors, lemma_same_value, lemma_steps, lemma_sub, lemma_times_one,
    lemma_zero_value, steps,
};
use crate::text::{chars_of, decimal_text, number_text, push_all, push_str, text_of, texts};
use vstd::prelude::*;

verus! {

/// 0.01 as a number: what moves less stays.
pub const LEAST_MOVE: u64 = 0x3f84_7ae1_47ae_147b;

/// How many nodes are pushed at most.
pub const MOST_NODES: usize = 100;

/// How far a node has been pushed.
#[derive(Debug, Clone, Copy, PartialEq, Eq, Structural)]
pub struct Offset {
    pub x: Double,
    pub y: Double,
}

/// The box of a node where it stands. What is not a path, and what does not exist,
/// has no extent.
pub open spec fn standing_box(nodes: Seq<Node>, id: u128) -> Bounds {
    let zero = (Double { bits: 0 });
    if has_node(nodes, id) {
        let node = nodes[position_of(nodes, id)];
        let b = if node.kind == NodeKind::Path {
            path_box(node)
        } else {
            Bounds { x0: zero, y0: zero, x1: zero, y1: zero }
        };
        let m = node.transform;
        Bounds {
            x0: f_add(b.x0, m.e),
            y0: f_add(b.y0, m.f),
            x1: f_add(b.x1, m.e),
            y1: f_add(b.y1, m.f),
        }
    } else {
        Bounds {
            x0: f_add(zero, zero),
            y0: f_add(zero, zero),
            x1: f_add(zero, zero),
            y1: f_add(zero, zero),
        }
    }
}

/// A box that has been pushed, with half of the padding round it.
pub open spec fn padded_box(b: Bounds, o: Offset, padding: Double) -> Bounds {
    Bounds {
        x0: f_sub(f_add(b.x0, o.x), half(padding)),
        y0: f_sub(f_add(b.y0, o.y), half(padding)),
        x1: f_add(f_add(b.x1, o.x), half(padding)),
        y1: f_add(f_add(b.y1, o.y), half(padding)),
    }
}

/// How much two stretches have in common.
pub open spec fn common(a0: Double, a1: Double, b0: Double, b1: Double) -> Double {
    f_max(f_sub(f_min(a1, b1), f_max(a0, b0)), (Double { bits: 0 }))
}

/// The direction in which the first of two stretches is pushed: away from the
/// middle of the other.
pub open spec fn away(a0: Double, a1: Double, b0: Double, b1: Double) -> Double {
    if f_at_most(half(f_add(a0, a1)), half(f_add(b0, b1))) {
        f_neg(Double { bits: ONE })
    } else {
        Double { bits: ONE }
    }
}

/// How far the first of two boxes is pushed; none where they do not overlap. They
/// part along the axis along which they have less in common, each by half.
pub open spec fn push_of(a: Bounds, b: Bounds) -> Option<Offset> {
    let zero = (Double { bits: 0 });
    let ox = common(a.x0, a.x1, b.x0, b.x1);
    let oy = common(a.y0, a.y1, b.y0, b.y1);
    if f_less(zero, ox) && f_less(zero, oy) {
        Some(
            if f_less(ox, oy) {
                Offset { x: half(f_mul(away(a.x0, a.x1, b.x0, b.x1), ox)), y: zero }
            } else {
                Offset { x: zero, y: half(f_mul(away(a.y0, a.y1, b.y0, b.y1), oy)) }
            },
        )
    } else {
        None
    }
}

/// How far the nodes have been pushed, and whether a pass found an overlap.
pub struct Pushed {
    pub offsets: Seq<Offset>,
    pub any: bool,
}

/// The nodes `i` and `j` pushed apart.
pub open spec fn pair_pushed(boxes: Seq<Bounds>, padding: Double, s: Pushed, i: int, j: int) -> Pushed {
    let a = padded_box(boxes[i], s.offsets[i], padding);
    let b = padded_box(boxes[j], s.offsets[j], padding);
    match push_of(a, b) {
        None => s,
        Some(p) => {
            let oi = s.offsets[i];
            let oj = s.offsets[j];
            Pushed {
                offsets: s.offsets.update(
                    i,
                    Offset { x: f_add(oi.x, p.x), y: f_add(oi.y, p.y) },
                ).update(j, Offset { x: f_sub(oj.x, p.x), y: f_sub(oj.y, p.y) }),
                any: true,
            }
        },
    }
}

/// Node `i` pushed apart from the nodes behind it, up to node `end`.
pub open spec fn row_pushed(
    boxes: Seq<Bounds>,
    padding: Double,
    s: Pushed,
    i: int,
    end: int,
) -> Pushed
    decreases end - i,
{
    if end <= i + 1 {
        s
    } else {
        pair_pushed(boxes, padding, row_pushed(boxes, padding, s, i, end - 1), i, end - 1)
    }
}

/// The first `n` nodes pushed apart from all nodes behind them.
pub open spec fn rows_pushed(boxes: Seq<Bounds>, padding: Double, s: Pushed, n: nat) -> Pushed
    decreases n,
{
    if n == 0 {
        s
    } else {
        row_pushed(
            boxes,
            padding,
            rows_pushed(boxes, padding, s, (n - 1) as nat),
            n - 1,
            boxes.len() as int,
        )
    }
}

/// One pass over all pairs.
pub open spec fn one_pass(boxes: Seq<Bounds>, padding: Double, offsets: Seq<Offset>) -> Pushed {
    rows_pushed(boxes, padding, Pushed { offsets, any: false }, boxes.len())
}

/// The offsets and the number of passes after at most `left` further passes: the
/// passes end with the first one that finds no overlap.
pub open spec fn passes(
    boxes: Seq<Bounds>,
    padding: Double,
    offsets: Seq<Offset>,
    done: nat,
    left: nat,
) -> (Seq<Offset>, nat)
    decreases left,
{
    if left == 0 {
        (offsets, done)
    } else {
        let p = one_pass(boxes, padding, offsets);
        if p.any {
            passes(boxes, padding, p.offsets, done + 1, (left - 1) as nat)
        } else {
            (p.offsets, done + 1)
        }
    }
}

/// The moves of the first `n` nodes.
pub open spec fn spread_moves(
    nodes: Seq<Node>,
    ids: Seq<u128>,
    offsets: Seq<Offset>,
    n: nat,
) -> Seq<Move>
    decreases n,
{
    if n == 0 {
        Seq::empty()
    } else {
        let before = spread_moves(nodes, ids, offsets, (n - 1) as nat);
        let o = offsets[n - 1];
        let least = (Double { bits: LEAST_MOVE });
        if (f_less(least, f_abs(o.x)) || f_less(least, f_abs(o.y))) && has_node(
            nodes,
            ids[n - 1],
        ) {
            before.push(
                Move { position: position_of(nodes, ids[n - 1]) as usize, dx: o.x, dy: o.y },
            )
        } else {
            before
        }
    }
}

/// The moves, the number of passes and of nodes, how many entries this adds to the
/// history, and what is said.
#[derive(Debug)]
pub struct SpreadPlan {
    pub moves: Vec<Move>,
    pub iterations: usize,
    pub total: usize,
    pub entries: usize,
    pub message: String,
}

pub open spec fn spread_message(moved: nat, iterations: nat) -> Seq<char> {
    if moved == 0 {
        "No overlapping nodes found — nothing moved"@
    } else {
        "Distributed "@ + decimal_text(moved) + " nodes in "@ + decimal_text(iterations)
            + " iterations"@
    }
}

/// The ids of the nodes that are pushed.
pub open spec fn first_ids(ids: Seq<u128>) -> Seq<u128> {
    if ids.len() <= MOST_NODES {
        ids
    } else {
        ids.take(MOST_NODES as int)
    }
}

pub open spec fn pass_limit(max_iterations: Option<usize>) -> nat {
    match max_iterations {
        Some(m) => if m <= 500 {
            m as nat
        } else {
            500
        },
        None => 100,
    }
}

pub open spec fn zero_offsets(n: nat) -> Seq<Offset> {
    Seq::new(n, |i: int| Offset { x: Double { bits: 0 }, y: Double { bits: 0 } })
}

pub open spec fn standing_boxes(nodes: Seq<Node>, ids: Seq<u128>) -> Seq<Bounds> {
    Seq::new(ids.len(), |i: int| standing_box(nodes, ids[i]))
}

fn box_at(nodes: &Vec<Node>, id: u128) -> (r: Bounds)
    ensures
        r == standing_box(nodes@, id),
{
    let zero = Double { bits: 0 };
    let mut b = Bounds { x0: zero, y0: zero, x1: zero, y1: zero };
    let mut tx = zero;
    let mut ty = zero;
    if let Some(k) = find_node(nodes, id) {
        if nodes[k].kind == NodeKind::Path {
            b = box_of_path(&nodes[k]);
        }
        tx = nodes[k].transform.e;
        ty = nodes[k].transform.f;
    }
    Bounds { x0: plus(b.x0, tx), y0: plus(b.y0, ty), x1: plus(b.x1, tx), y1: plus(b.y1, ty) }
}

fn pad_box(b: &Bounds, o: Offset, padding: Double) -> (r: Bounds)
    ensures
        r == padded_box(*b, o, padding),
{
    let edge = halved(padding);
    Bounds {
        x0: minus(plus(b.x0, o.x), edge),
        y0: minus(plus(b.y0, o.y), edge),
        x1: plus(plus(b.x1, o.x), edge),
        y1: plus(plus(b.y1, o.y), edge),
    }
}

fn common_of(a0: Double, a1: Double, b0: Double, b1: Double) -> (r: Double)
    ensures
        r == common(a0, a1, b0, b1),
{
    maximum(minus(minimum(a1, b1), maximum(a0, b0)), Double { bits: 0 })
}

fn away_of(a0: Double, a1: Double, b0: Double, b1: Double) -> (r: Double)
    ensures
        r == away(a0, a1, b0, b1),
{
    if at_most(halved(plus(a0, a1)), halved(plus(b0, b1))) {
        Double { bits: ONE + SIGN }
    } else {
        Double { bits: ONE }
    }
}

fn find_push(a: &Bounds, b: &Bounds) -> (r: Option<Offset>)
    ensures
        r == push_of(*a, *b),
{
    let zero = Double { bits: 0 };
    let ox = common_of(a.x0, a.x1, b.x0, b.x1);
    let oy = common_of(a.y0, a.y1, b.y0, b.y1);
    if less(zero, ox) && less(zero, oy) {
        if less(ox, oy) {
            Some(Offset { x: halved(times(away_of(a.x0, a.x1, b.x0, b.x1), ox)), y: zero })
        } else {
            Some(Offset { x: zero, y: halved(times(away_of(a.y0, a.y1, b.y0, b.y1), oy)) })
        }
    } else {
        None
    }
}

/// One pass over all pairs; tells whether there was an overlap.
fn run_pass(boxes: &Vec<Bounds>, padding: Double, offsets: &mut Vec<Offset>) -> (any: bool)
    requires
        boxes.len() == old(offsets).len(),
    ensures
        final(offsets).len() == old(offsets).len(),
        (Pushed { offsets: final(offsets)@, any }) == one_pass(boxes@, padding, old(offsets)@),
{
    let ghost start = (Pushed { offsets: offsets@, any: false });
    let n: usize = boxes.len();
    let mut any = false;
    let mut i: usize = 0;
    while i < n
        invariant
            i <= n,
            n == boxes.len(),
            n == offsets.len(),
            n == start.offsets.len(),
            (Pushed { offsets: offsets@, any }) == rows_pushed(boxes@, padding, start, i as nat),
        decreases n - i,
    {
        let ghost row = (Pushed { offsets: offsets@, any });
        let mut j: usize = i + 1;
        while j < n
            invariant
                i < j <= n,
                n == boxes.len(),
                n == offsets.len(),
                n == row.offsets.len(),
                (Pushed { offsets: offsets@, any }) == row_pushed(
                    boxes@,
                    padding,
                    row,
                    i as int,
                    j as int,
                ),
            decreases n - j,
        {
            let oi = offsets[i];
            let oj = offsets[j];
            let a = pad_box(&boxes[i], oi, padding);
            let b = pad_box(&boxes[j], oj, padding);
            if let Some(p) = find_push(&a, &b) {
                any = true;
                offsets.set(i, Offset { x: plus(oi.x, p.x), y: plus(oi.y, p.y) });
                offsets.set(j, Offset { x: minus(oj.x, p.x), y: minus(oj.y, p.y) });
            }
            j += 1;
        }
        i += 1;
    }
    any
}

/// Pushes nodes apart until their boxes, with some padding, do not overlap, or the
/// passes run out.
pub fn distribute_no_overlap(
    nodes: &Vec<Node>,
    selection: &Vec<u128>,
    names: &Vec<String>,
    padding: Option<Double>,
    max_iterations: Option<usize>,
) -> (r: Result<SpreadPlan, String>)
    ensures
        ({
            let all = targets(nodes@, selection@, texts(names@));
            let ids = first_ids(all);
            let pad = f_max(or_default(padding, whole(4)), Double { bits: 0 });
            let end = passes(
                standing_boxes(nodes@, ids),
                pad,
                zero_offsets(ids.len()),
                0,
                pass_limit(max_iterations),
            );
            match r {
                Err(e) => all.len() < 2 && e@ == "need at least 2 nodes to distribute"@,
                Ok(p) => {
                    &&& all.len() >= 2
                    &&& p.moves@ == spread_moves(nodes@, ids, end.0, ids.len())
                    &&& p.iterations == end.1
                    &&& p.total == ids.len()
                    &&& p.entries == entries_for(p.moves@.len())
                    &&& p.message@ == spread_message(p.moves@.len(), end.1)
                },
            }
        }),
{
    let pad = maximum(given_or_default(padding, from_count(4)), Double { bits: 0 });
    let limit: usize = match max_iterations {
        Some(m) => if m <= 500 {
            m
        } else {
            500
        },
        None => 100,
    };
    let all = resolve_targets(nodes, selection, names);
    if all.len() < 2 {
        return Err("need at least 2 nodes to distribute".to_owned());
    }
    let n: usize = if all.len() <= MOST_NODES {
        all.len()
    } else {
        MOST_NODES
    };
    let ghost ids = first_ids(all@);
    assert(ids =~= all@.take(n as int));
    let mut boxes: Vec<Bounds> = Vec::new();
    let mut offsets: Vec<Offset> = Vec::new();
    let mut i: usize = 0;
    while i < n
        invariant
            i <= n <= all.len(),
            ids == all@.take(n as int),
            boxes@ == standing_boxes(nodes@, ids).take(i as int),
            offsets@ == zero_offsets(i as nat),
        decreases n - i,
    {
        boxes.push(box_at(nodes, all[i]));
        offsets.push(Offset { x: Double { bits: 0 }, y: Double { bits: 0 } });
        i += 1;
        assert(boxes@ =~= standing_boxes(nodes@, ids).take(i as int));
        assert(offsets@ =~= zero_offsets(i as nat));
    }
    assert(boxes@ =~= standing_boxes(nodes@, ids));
    let ghost end = passes(boxes@, pad, offsets@, 0, limit as nat);
    let mut iterations: usize = 0;
    let mut again = true;
    while again && iterations < limit
        invariant
            iterations <= limit <= 500,
            n == boxes.len(),
            n == offsets.len(),
            again ==> passes(
                boxes@,
                pad,
                offsets@,
                iterations as nat,
                (limit - iterations) as nat,
            ) == end,
            !again ==> (offsets@, iterations as nat) == end,
        decreases limit - iterations,
    {
        again = run_pass(&boxes, pad, &mut offsets);
        iterations += 1;
    }
    let mut moves: Vec<Move> = Vec::new();
    let mut k: usize = 0;
    while k < n
        invariant
            k <= n <= all.len(),
            n == offsets.len(),
            ids == all@.take(n as int),
            moves@ == spread_moves(nodes@, ids, offsets@, k as nat),
        decreases n - k,
    {
        let o = offsets[k];
        let least = Double { bits: LEAST_MOVE };
        assert(ids[k as int] == all@[k as int]);
        if less(least, absolute(o.x)) || less(least, absolute(o.y)) {
            if let Some(p) = find_node(nodes, all[k]) {
                moves.push(Move { position: p, dx: o.x, dy: o.y });
            }
        }
        k += 1;
    }
    let message = if moves.len() == 0 {
        "No overlapping nodes found — nothing moved".to_owned()
    } else {
        let mut v = chars_of("Distributed ");
        push_all(&mut v, &number_text(moves.len() as u64));
        push_str(&mut v, " nodes in ");
        push_all(&mut v, &number_text(iterations as u64));
        push_str(&mut v, " iterations");
        text_of(&v)
    };
    Ok(SpreadPlan { entries: one_entry(moves.len()), moves, iterations, total: n, message })
}

/// A pass that finds no overlap moves nothing, and then no two boxes overlap.
pub proof fn law_quiet_pass(boxes: Seq<Bounds>, padding: Double, offsets: Seq<Offset>)
    requires
        offsets.len() == boxes.len(),
        !one_pass(boxes, padding, offsets).any,
    ensures
        one_pass(boxes, padding, offsets).offsets == offsets,
        forall|i: int, j: int|
            #![trigger offsets[i], offsets[j]]
            0 <= i < j < boxes.len() ==> push_of(
                padded_box(boxes[i], offsets[i], padding),
                padded_box(boxes[j], offsets[j], padding),
            ) is None,
{
    lemma_quiet_rows(boxes, padding, offsets, boxes.len());
}

proof fn lemma_any_stays(boxes: Seq<Bounds>, padding: Double, s: Pushed, i: int, end: int)
    ensures
        s.any ==> row_pushed(boxes, padding, s, i, end).any,
    decreases end - i,
{
    if end > i + 1 {
        lemma_any_stays(boxes, padding, s, i, end - 1);
    }
}

proof fn lemma_quiet_row(boxes: Seq<Bounds>, padding: Double, s: Pushed, i: int, end: int)
    requires
        !s.any,
        !row_pushed(boxes, padding, s, i, end).any,
    ensures
        row_pushed(boxes, padding, s, i, end) == s,
        forall|j: int|
            #![trigger s.offsets[j]]
            i < j < end ==> push_of(
                padded_box(boxes[i], s.offsets[i], padding),
                padded_box(boxes[j], s.offsets[j], padding),
            ) is None,
    decreases end - i,
{
    if end > i + 1 {
        lemma_quiet_row(boxes, padding, s, i, end - 1);
    }
}

proof fn lemma_quiet_rows(boxes: Seq<Bounds>, padding: Double, offsets: Seq<Offset>, n: nat)
    requires
        n <= boxes.len(),
        !rows_pushed(boxes, padding, Pushed { offsets, any: false }, n).any,
    ensures
        rows_pushed(boxes, padding, Pushed { offsets, any: false }, n) == (Pushed {
            offsets,
            any: false,
        }),
        forall|i: int, j: int|
            #![trigger offsets[i], offsets[j]]
            0 <= i < n && i < j < boxes.len() ==> push_of(
                padded_box(boxes[i], offsets[i], padding),
                padded_box(boxes[j], offsets[j], padding),
            ) is None,
    decreases n,
{
    let s = (Pushed { offsets, any: false });
    if n > 0 {
        let before = rows_pushed(boxes, padding, s, (n - 1) as nat);
        lemma_any_stays(boxes, padding, before, n - 1, boxes.len() as int);
        lemma_quiet_rows(boxes, padding, offsets, (n - 1) as nat);
        lemma_quiet_row(boxes, padding, s, n - 1, boxes.len() as int);
    }
}


/// A path stands where its box is moved to, across and down.
pub proof fn law_boxes_stand_where_nodes_are_moved(nodes: Seq<Node>, id: u128, j: nat)
    requires
        has_node(nodes, id),
        nodes[position_of(nodes, id)].kind == NodeKind::Path,
        nodes[position_of(nodes, id)].bounds is Some,
        is_plain_standing(nodes[position_of(nodes, id)], j),
    ensures
        ({
            let m = nodes[position_of(nodes, id)].transform;
            let b = nodes[position_of(nodes, id)].bounds->0;
            let s = standing_box(nodes, id);
            &&& exact(s.x0) == exact(b.x0) + exact(m.e)
            &&& exact(s.x1) == exact(b.x1) + exact(m.e)
            &&& exact(s.y0) == exact(b.y0) + exact(m.f)
            &&& exact(s.y1) == exact(b.y1) + exact(m.f)
        }),
{
    let m = nodes[position_of(nodes, id)].transform;
    let b = nodes[position_of(nodes, id)].bounds->0;
    lemma_plain(b.x0, j);
    lemma_plain(b.x1, j);
    lemma_plain(b.y0, j);
    lemma_plain(b.y1, j);
    lemma_plain(m.e, j);
    lemma_plain(m.f, j);
    lemma_add(b.x0, m.e, j, 0x4000_0000, 0x4000_0000);
    lemma_add(b.x1, m.e, j, 0x4000_0000, 0x4000_0000);
    lemma_add(b.y0, m.f, j, 0x4000_0000, 0x4000_0000);
    lemma_add(b.y1, m.f, j, 0x4000_0000, 0x4000_0000);
}

/// A node whose box and place need no rounding.
pub open spec fn is_plain_standing(node: Node, j: nat) -> bool {
    let b = node.bounds->0;
    &&& is_plain(b.x0, j) && is_plain(b.x1, j) && is_plain(b.y0, j) && is_plain(b.y1, j)
    &&& is_plain(node.transform.e, j) && is_plain(node.transform.f, j)
}

/// Half of the padding is added on every side of a box, wherever it is moved to.
pub proof fn law_padding_surrounds_the_box(b: Bounds, o: Offset, padding: Double, j: nat)
    requires
        is_plain(b.x0, j),
        is_plain(b.x1, j),
        is_plain(b.y0, j),
        is_plain(b.y1, j),
        is_plain(o.x, j),
        is_plain(o.y, j),
        is_plain(padding, j),
    ensures
        ({
            let p = padded_box(b, o, padding);
            &&& 2 * (exact(b.x0) + exact(o.x) - exact(p.x0)) == exact(padding)
            &&& 2 * (exact(p.x1) - exact(b.x1) - exact(o.x)) == exact(padding)
            &&& 2 * (exact(b.y0) + exact(o.y) - exact(p.y0)) == exact(padding)
            &&& 2 * (exact(p.y1) - exact(b.y1) - exact(o.y)) == exact(padding)
        }),
{
    lemma_padded(b.x0, o.x, padding, j);
    lemma_padded(b.x1, o.x, padding, j);
    lemma_padded(b.y0, o.y, padding, j);
    lemma_padded(b.y1, o.y, padding, j);
}

proof fn lemma_padded(edge: Double, moved: Double, padding: Double, j: nat)
    requires
        is_plain(edge, j),
        is_plain(moved, j),
        is_plain(padding, j),
    ensures
        2 * exact(f_sub(f_add(edge, moved), half(padding))) == 2 * exact(edge) + 2 * exact(moved)
            - exact(padding),
        2 * exact(f_add(f_add(edge, moved), half(padding))) == 2 * exact(edge) + 2 * exact(moved)
            + exact(padding),
{
    let h = (j - 1) as nat;
    lemma_plain(edge, j);
    lemma_plain(moved, j);
    lemma_plain(padding, j);
    lemma_add(edge, moved, h, 0x8000_0000, 0x8000_0000);
    lemma_half(padding, j, 0x4000_0000);
    lemma_sub(f_add(edge, moved), half(padding), h, 0x1_0000_0000, 0x4000_0000);
    lemma_add(f_add(edge, moved), half(padding), h, 0x1_0000_0000, 0x4000_0000);
}

/// How far two spans lie over one another; 0 or less where they do not.
pub open spec fn overlap(a0: Double, a1: Double, b0: Double, b1: Double) -> int {
    let end = if exact(a1) <= exact(b1) {
        exact(a1)
    } else {
        exact(b1)
    };
    let start = if exact(a0) <= exact(b0) {
        exact(b0)
    } else {
        exact(a0)
    };
    end - start
}

/// Two boxes are pushed apart only where they lie over one another both across and down; and
/// then along the one axis on which less of them does, by half of what does, the first of
/// them to its own side of the other one.
pub proof fn law_boxes_are_pushed_apart(a: Bounds, b: Bounds, j: nat)
    requires
        is_plain(a.x0, j),
        is_plain(a.x1, j),
        is_plain(a.y0, j),
        is_plain(a.y1, j),
        is_plain(b.x0, j),
        is_plain(b.x1, j),
        is_plain(b.y0, j),
        is_plain(b.y1, j),
    ensures
        ({
            let across = overlap(a.x0, a.x1, b.x0, b.x1);
            let down = overlap(a.y0, a.y1, b.y0, b.y1);
            let before = exact(a.x0) + exact(a.x1) <= exact(b.x0) + exact(b.x1);
            let above = exact(a.y0) + exact(a.y1) <= exact(b.y0) + exact(b.y1);
            match push_of(a, b) {
                None => across <= 0 || down <= 0,
                Some(p) => {
                    &&& across > 0 && down > 0
                    &&& across < down ==> exact(p.y) == 0 && 2 * exact(p.x) == (if before {
                        -across
                    } else {
                        across
                    })
                    &&& across >= down ==> exact(p.x) == 0 && 2 * exact(p.y) == (if above {
                        -down
                    } else {
                        down
                    })
                },
            }
        }),
{
    lemma_common(a.x0, a.x1, b.x0, b.x1, j);
    lemma_common(a.y0, a.y1, b.y0, b.y1, j);
    let zero = (Double { bits: 0 });
    let ox = common(a.x0, a.x1, b.x0, b.x1);
    let oy = common(a.y0, a.y1, b.y0, b.y1);
    lemma_order(zero, ox);
    lemma_order(zero, oy);
    lemma_order(ox, oy);
}

proof fn lemma_common(a0: Double, a1: Double, b0: Double, b1: Double, j: nat)
    requires
        is_plain(a0, j),
        is_plain(a1, j),
        is_plain(b0, j),
        is_plain(b1, j),
    ensures
        ({
            let c = common(a0, a1, b0, b1);
            let o = overlap(a0, a1, b0, b1);
            let push = half(f_mul(away(a0, a1, b0, b1), c));
            &&& c.wf()
            &&& exact(Double { bits: 0 }) == 0
            &&& exact(c) == (if o > 0 {
                o
            } else {
                0
            })
            &&& o > 0 ==> 2 * exact(push) == (if exact(a0) + exact(a1) <= exact(b0) + exact(b1) {
                -o
            } else {
                o
            })
        }),
{
    let h = (j - 1) as nat;
    let zero = (Double { bits: 0 });
    lemma_zero_value(zero);
    lemma_plain(a0, j);
    lemma_plain(a1, j);
    lemma_plain(b0, j);
    lemma_plain(b1, j);
    lemma_order(a1, b1);
    lemma_order(a0, b0);
    let end = f_min(a1, b1);
    let start = f_max(a0, b0);
    assert(end == a1 || end == b1);
    assert(start == a0 || start == b0);
    lemma_sub(end, start, j, 0x4000_0000, 0x4000_0000);
    let d = f_sub(end, start);
    lemma_order(d, zero);
    let c = f_max(d, zero);
    lemma_add(a0, a1, j, 0x4000_0000, 0x4000_0000);
    lemma_add(b0, b1, j, 0x4000_0000, 0x4000_0000);
    lemma_half(f_add(a0, a1), j, 0x8000_0000);
    lemma_half(f_add(b0, b1), j, 0x8000_0000);
    lemma_order(half(f_add(a0, a1)), half(f_add(b0, b1)));
    if overlap(a0, a1, b0, b1) > 0 {
        assert(c == d);
        lemma_one();
        let one = whole(1);
        lemma_times_one(c);
        lemma_neg(one);
        lemma_product_mirrors(one, c);
        lemma_neg(c);
        let m = f_mul(f_neg(one), c);
        assert(m.key() == f_neg(c).key());
        lemma_half(c, j, 0x8000_0000);
        if f_at_most(half(f_add(a0, a1)), half(f_add(b0, b1))) {
            assert(m.wf());
            lemma_same_value(m, f_neg(c));
            let k = steps(c, j);
            let p = power(2, j);
            assert((-k) * p == -(k * p)) by (nonlinear_arith);
            lemma_steps(m, j, -steps(c, j));
            lemma_half(m, j, 0x8000_0000);
        }
    }
}

/// What one of two boxes is pushed, the other is pushed the opposite way; the rest stay.
pub proof fn law_pushes_are_opposite(
    boxes: Seq<Bounds>,
    padding: Double,
    s: Pushed,
    a: int,
    b: int,
    k: int,
    j: nat,
)
    requires
        0 <= a < b < s.offsets.len(),
        0 <= k < s.offsets.len(),
        is_plain(s.offsets[a].x, j),
        is_plain(s.offsets[a].y, j),
        is_plain(s.offsets[b].x, j),
        is_plain(s.offsets[b].y, j),
        push_of(
            padded_box(boxes[a], s.offsets[a], padding),
            padded_box(boxes[b], s.offsets[b], padding),
        ) matches Some(p) ==> is_plain(p.x, j) && is_plain(p.y, j),
    ensures
        ({
            let t = pair_pushed(boxes, padding, s, a, b);
            &&& t.offsets.len() == s.offsets.len()
            &&& k != a && k != b ==> t.offsets[k] == s.offsets[k]
            &&& exact(t.offsets[a].x) + exact(t.offsets[b].x) == exact(s.offsets[a].x) + exact(
                s.offsets[b].x,
            )
            &&& exact(t.offsets[a].y) + exact(t.offsets[b].y) == exact(s.offsets[a].y) + exact(
                s.offsets[b].y,
            )
            &&& !t.any ==> t.offsets == s.offsets
        }),
{
    let oa = s.offsets[a];
    let ob = s.offsets[b];
    lemma_plain(oa.x, j);
    lemma_plain(oa.y, j);
    lemma_plain(ob.x, j);
    lemma_plain(ob.y, j);
    match push_of(
        padded_box(boxes[a], s.offsets[a], padding),
        padded_box(boxes[b], s.offsets[b], padding),
    ) {
        None => {},
        Some(p) => {
            lemma_plain(p.x, j);
            lemma_plain(p.y, j);
            lemma_add(oa.x, p.x, j, 0x4000_0000, 0x4000_0000);
            lemma_add(oa.y, p.y, j, 0x4000_0000, 0x4000_0000);
            lemma_sub(ob.x, p.x, j, 0x4000_0000, 0x4000_0000);
            lemma_sub(ob.y, p.y, j, 0x4000_0000, 0x4000_0000);
        },
    }
}

/// A node is moved by its own offset, across and down, and only where that is worth a move.
pub proof fn law_moves_are_the_offsets(
    nodes: Seq<Node>,
    ids: Seq<u128>,
    offsets: Seq<Offset>,
    n: nat,
    a: int,
)
    requires
        n <= ids.len(),
        n <= offsets.len(),
        0 <= a < spread_moves(nodes, ids, offsets, n).len(),
    ensures
        exists|k: int|
            0 <= k < n && ({
                let m = spread_moves(nodes, ids, offsets, n)[a];
                &&& m.position == position_of(nodes, #[trigger] ids[k]) as usize
                &&& m.dx == offsets[k].x && m.dy == offsets[k].y
            }),
    decreases n,
{
    let before = spread_moves(nodes, ids, offsets, (n - 1) as nat);
    if a < before.len() {
        law_moves_are_the_offsets(nodes, ids, offsets, (n - 1) as nat, a);
        let k = choose|k: int|
            0 <= k < n - 1 && ({
                let m = before[a];
                &&& m.position == position_of(nodes, #[trigger] ids[k]) as usize
                &&& m.dx == offsets[k].x && m.dy == offsets[k].y
            });
        assert(spread_moves(nodes, ids, offsets, n)[a] == before[a]);
        assert(0 <= k < n);
    } else {
        let id = ids[n - 1];
    }
}

} // verus!
