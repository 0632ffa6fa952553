//! Copies of nodes: duplicates, arrays, grids, scattered and rotated copies.
use crate::arrange::{given_or_default, or_default};
use crate::bezier::{map_point, mapped, world_bounds, world_box, Affine, Bounds, PathEl, Point, ONE};
use crate::bignum::{lemma_power_positive, power};
use crate::double::Double;
use crate::float::{
    absolute, at_most, clamped, divided, exact, f_abs, f_add, f_at_most, f_clamp, f_div, f_less,
    f_max, f_mul, f_narrow, f_neg, f_sub, from_count, half, halved, lemma_positive,
    lemma_self_difference, lemma_whole, lemma_whole_difference, less, maximum, minus, narrowed,
    negated, one_units, plus, times, whole,
};
use crate::scene::{
    around_id, find_node, first_missing, found_positions, has_node, id_text, lemma_first_missing,
    named_id, position_of, positions_found, push_id, resolve_node_id, resolve_targets, targets,
    Node, NodeKind,
};
use crate::steps::{
    is_plain, lemma_add, lemma_cell_start, lemma_half, lemma_neg, lemma_next_column, lemma_next_row,
    lemma_one, lemma_place_bounds, lemma_plain, lemma_plus_nothing, lemma_product_keeps_order,
    lemma_product_mirrors, lemma_product_value, lemma_same_value, lemma_share_of_steps, lemma_steps,
    lemma_sub, lemma_sum_commutes, lemma_sum_keeps_order, lemma_sum_value, lemma_times,
    lemma_times_nothing, lemma_times_one, lemma_two_to, lemma_value_stays, lemma_whole_within,
    lemma_zero_value, steps, within,
};
use crate::text::{
    chars_of, decimal_text, join, joined, number_text, push_all, push_str, same_text, text_of,
    texts,
};
use crate::transform::{flip_node, flipped_node, Flipped, FlippedView};
use crate::typography::{is_target, quoted_name, quoted_text, target};
use vstd::prelude::*;

verus! {

/// A name and a number behind it.
pub open spec fn numbered(name: Seq<char>, between: Seq<char>, n: nat) -> Seq<char> {
    name + between + decimal_text(n)
}

pub fn number_name(name: &str, between: &str, n: usize) -> (r: String)
    ensures
        r@ == numbered(name@, between@, n as nat),
{
    let mut v = chars_of(name);
    push_str(&mut v, between);
    push_all(&mut v, &number_text(n as u64));
    text_of(&v)
}

/// A copy of a node, and how far it is moved.
#[derive(Debug, Clone, Copy, PartialEq, Eq, Structural)]
pub struct Duplicate {
    pub source: usize,
    pub dx: Double,
    pub dy: Double,
    pub layer: u128,
}

/// The copies, how many entries they add to the history, and what is said.
#[derive(Debug)]
pub struct DuplicatePlan {
    pub copies: Vec<Duplicate>,
    pub entries: usize,
    pub message: String,
}

pub open spec fn copy_count(count: Option<usize>) -> nat {
    match count {
        Some(c) => if c < 1 {
            1
        } else if c > 100 {
            100
        } else {
            c as nat
        },
        None => 1,
    }
}

/// Copy number `c` of the first `n` nodes.
pub open spec fn duplicate_round(
    nodes: Seq<Node>,
    ids: Seq<u128>,
    offset: (Double, Double),
    layer: Option<u128>,
    c: nat,
    n: nat,
) -> Seq<Duplicate>
    decreases n,
{
    if n == 0 {
        Seq::empty()
    } else {
        let k = position_of(nodes, ids[n - 1]);
        duplicate_round(nodes, ids, offset, layer, c, (n - 1) as nat).push(
            Duplicate {
                source: k as usize,
                dx: f_mul(offset.0, whole(c)),
                dy: f_mul(offset.1, whole(c)),
                layer: match layer {
                    Some(l) => l,
                    None => nodes[k].layer,
                },
            },
        )
    }
}

/// The first `c` copies of all nodes.
pub open spec fn duplicates(
    nodes: Seq<Node>,
    ids: Seq<u128>,
    offset: (Double, Double),
    layer: Option<u128>,
    c: nat,
) -> Seq<Duplicate>
    decreases c,
{
    if c == 0 {
        Seq::empty()
    } else {
        duplicates(nodes, ids, offset, layer, (c - 1) as nat) + duplicate_round(
            nodes,
            ids,
            offset,
            layer,
            c,
            ids.len(),
        )
    }
}

pub open spec fn offset_or_ten(offset: Option<(Double, Double)>) -> (Double, Double) {
    match offset {
        Some(o) => o,
        None => (whole(10), whole(10)),
    }
}

/// Every round of copies has one copy of each node, further away by the offset.
pub fn duplicate_nodes(
    nodes: &Vec<Node>,
    ids: &Vec<u128>,
    count: Option<usize>,
    offset: Option<(Double, Double)>,
    layer: Option<u128>,
) -> (r: Result<DuplicatePlan, String>)
    ensures
        match r {
            Err(e) => match first_missing(nodes@, ids@) {
                Some(id) => e@ == "Node "@ + id_text(id) + " not found"@,
                None => ids.len() == 0 && e@ == "Nothing to duplicate"@,
            },
            Ok(p) => {
                &&& ids.len() > 0
                &&& first_missing(nodes@, ids@) is None
                &&& p.entries == 1
                &&& p.copies@ == duplicates(
                    nodes@,
                    ids@,
                    offset_or_ten(offset),
                    layer,
                    copy_count(count),
                )
                &&& p.message@ == "Duplicated "@ + decimal_text(ids@.len())
                    + " source node(s) × "@ + decimal_text(copy_count(count)) + " copies = "@
                    + decimal_text(p.copies@.len()) + " new root node(s)"@
            },
        },
{
    let total: usize = match count {
        Some(c) => if c < 1 {
            1
        } else if c > 100 {
            100
        } else {
            c
        },
        None => 1,
    };
    let by = match offset {
        Some(o) => o,
        None => (from_count(10), from_count(10)),
    };
    let mut places: Vec<usize> = Vec::new();
    let mut i: usize = 0;
    assert(ids@.take(0) =~= Seq::<u128>::empty());
    while i < ids.len()
        invariant
            i <= ids.len(),
            first_missing(nodes@, ids@.take(i as int)) is None,
            places.len() == i,
            forall|j: int|
                0 <= j < i ==> (#[trigger] places@[j]) == position_of(nodes@, ids@[j])
                    && places@[j] < nodes.len(),
        decreases ids.len() - i,
    {
        proof {
            assert(ids@.take(i + 1).drop_last() =~= ids@.take(i as int));
            assert(ids@.take(i + 1).last() == ids@[i as int]);
        }
        match find_node(nodes, ids[i]) {
            None => {
                proof {
                    lemma_first_missing(nodes@, ids@, i + 1);
                }
                return Err(around_id("Node ", ids[i], " not found"));
            },
            Some(k) => {
                places.push(k);
            },
        }
        i += 1;
    }
    assert(ids@.take(ids@.len() as int) =~= ids@);
    if ids.len() == 0 {
        return Err("Nothing to duplicate".to_owned());
    }
    let mut copies: Vec<Duplicate> = Vec::new();
    let mut c: usize = 0;
    while c < total
        invariant
            c <= total <= 100,
            places.len() == ids.len(),
            forall|j: int|
                0 <= j < ids.len() ==> (#[trigger] places@[j]) == position_of(nodes@, ids@[j])
                    && places@[j] < nodes.len(),
            copies@ == duplicates(nodes@, ids@, by, layer, c as nat),
        decreases total - c,
    {
        c += 1;
        let ghost start = copies@;
        let dx = times(by.0, from_count(c as u64));
        let dy = times(by.1, from_count(c as u64));
        let mut j: usize = 0;
        while j < places.len()
            invariant
                j <= places.len(),
                places.len() == ids.len(),
                dx == f_mul(by.0, whole(c as nat)),
                dy == f_mul(by.1, whole(c as nat)),
                forall|j: int|
                    0 <= j < ids.len() ==> (#[trigger] places@[j]) == position_of(nodes@, ids@[j])
                        && places@[j] < nodes.len(),
                copies@ == start + duplicate_round(
                    nodes@,
                    ids@,
                    by,
                    layer,
                    c as nat,
                    j as nat,
                ),
            decreases places.len() - j,
        {
            let k: usize = places[j];
            let to: u128 = match layer {
                Some(l) => l,
                None => nodes[k].layer,
            };
            copies.push(Duplicate { source: k, dx, dy, layer: to });
            j += 1;
            assert(copies@ =~= start + duplicate_round(
                nodes@,
                ids@,
                by,
                layer,
                c as nat,
                j as nat,
            ));
        }
    }
    let mut v = chars_of("Duplicated ");
    push_all(&mut v, &number_text(ids.len() as u64));
    push_str(&mut v, " source node(s) × ");
    push_all(&mut v, &number_text(total as u64));
    push_str(&mut v, " copies = ");
    push_all(&mut v, &number_text(copies.len() as u64));
    push_str(&mut v, " new root node(s)");
    Ok(DuplicatePlan { copies, entries: 1, message: text_of(&v) })
}

/// Each round copies every node once.
pub proof fn law_duplicate_count(
    nodes: Seq<Node>,
    ids: Seq<u128>,
    offset: (Double, Double),
    layer: Option<u128>,
    c: nat,
)
    ensures
        duplicates(nodes, ids, offset, layer, c).len() == ids.len() * c,
    decreases c,
{
    if c > 0 {
        law_duplicate_count(nodes, ids, offset, layer, (c - 1) as nat);
        lemma_round_len(nodes, ids, offset, layer, c, ids.len());
        let n = ids.len();
        assert(n * c == n * (c - 1) + n) by (nonlinear_arith);
    } else {
        assert(ids.len() * 0 == 0);
    }
}

proof fn lemma_round_len(
    nodes: Seq<Node>,
    ids: Seq<u128>,
    offset: (Double, Double),
    layer: Option<u128>,
    c: nat,
    n: nat,
)
    ensures
        duplicate_round(nodes, ids, offset, layer, c, n).len() == n,
    decreases n,
{
    if n > 0 {
        lemma_round_len(nodes, ids, offset, layer, c, (n - 1) as nat);
    }
}

#[derive(Debug, Clone, Copy, PartialEq, Eq, Structural)]
pub enum ArrayMode {
    Grid,
    Radial,
}

#[derive(Debug)]
pub struct ArrayArgs {
    pub mode: ArrayMode,
    pub rows: Option<usize>,
    pub cols: Option<usize>,
    pub row_stride: Option<Double>,
    pub col_stride: Option<Double>,
    pub count: Option<usize>,
    pub center_x: Option<Double>,
    pub center_y: Option<Double>,
    pub start_angle_degrees: Option<Double>,
    pub name_prefix: Option<String>,
    pub layer_id: Option<u128>,
    pub group_result: bool,
}

/// What a copy is transformed by, on top of what its source is.
#[derive(Debug, Clone, Copy, PartialEq, Eq, Structural)]
pub enum Extra {
    Shift(Double, Double),
    /// A turn by so many degrees about a point.
    Turn { degrees: Double, center: Point },
}

#[derive(Debug)]
pub struct ArrayCopy {
    pub name: String,
    pub extra: Extra,
}

/// The copies of an array, the layer that they and the group go to, the name of the
/// group and its place in the layer, how many entries all this adds to the history,
/// and what is said.
#[derive(Debug)]
pub struct ArrayPlan {
    pub source: usize,
    pub copies: Vec<ArrayCopy>,
    pub layer: u128,
    pub group: Option<String>,
    pub group_index: usize,
    pub entries: usize,
    pub message: String,
}

pub open spec fn array_views(v: Seq<ArrayCopy>) -> Seq<(Seq<char>, Extra)> {
    Seq::new(v.len(), |i: int| (v[i].name@, v[i].extra))
}

pub open spec fn at_least_one(n: Option<usize>, default: nat) -> nat {
    match n {
        Some(v) => if v >= 1 {
            v as nat
        } else {
            1
        },
        None => default,
    }
}

fn one_or_more(n: Option<usize>, default: usize) -> (r: usize)
    requires
        default >= 1,
    ensures
        r == at_least_one(n, default as nat),
        r >= 1,
{
    match n {
        Some(v) => if v >= 1 {
            v
        } else {
            1
        },
        None => default,
    }
}

pub open spec fn radial_count(args: ArrayArgs) -> nat {
    match args.count {
        Some(c) => c as nat,
        None => 6,
    }
}

/// Why an array is not made. `limit` is the number of cells that a grid may have.
pub open spec fn array_error(nodes: Seq<Node>, id: u128, args: ArrayArgs, limit: usize) -> Option<
    Seq<char>,
> {
    if !has_node(nodes, id) {
        Some("Source node "@ + id_text(id) + " not found"@)
    } else {
        match args.mode {
            ArrayMode::Grid => {
                let cells = at_least_one(args.rows, 2) * at_least_one(args.cols, 2);
                if cells > usize::MAX {
                    Some("Grid dimensions overflow before array allocation (rows × cols)"@)
                } else if cells > limit {
                    Some(
                        "Grid must have at most "@ + decimal_text(limit as nat)
                            + " cells (rows × cols)"@,
                    )
                } else if cells < 2 {
                    Some("Grid must have at least 2 cells (rows × cols ≥ 2)"@)
                } else {
                    None
                }
            },
            ArrayMode::Radial => if radial_count(args) < 2 {
                Some("Radial count must be ≥ 2"@)
            } else {
                None
            },
        }
    }
}

pub open spec fn array_prefix(nodes: Seq<Node>, id: u128, args: ArrayArgs) -> Seq<char> {
    match args.name_prefix {
        Some(p) => p@,
        None => nodes[position_of(nodes, id)].name@,
    }
}

/// How many copies an array has besides its source.
pub open spec fn array_len(args: ArrayArgs) -> nat {
    match args.mode {
        ArrayMode::Grid => (at_least_one(args.rows, 2) * at_least_one(args.cols, 2) - 1) as nat,
        ArrayMode::Radial => (radial_count(args) - 1) as nat,
    }
}

/// The point that the copies of a radial array stand round.
pub open spec fn array_center(args: ArrayArgs) -> Point {
    let zero = (Double { bits: 0 });
    Point { x: or_default(args.center_x, zero), y: or_default(args.center_y, zero) }
}

/// Copy number `n` of an array; the source is number 0. A grid is filled row by row.
pub open spec fn array_copy(prefix: Seq<char>, args: ArrayArgs, n: nat) -> (Seq<char>, Extra) {
    let extra = match args.mode {
        ArrayMode::Grid => {
            let cols = at_least_one(args.cols, 2);
            Extra::Shift(
                f_mul(whole(n % cols), or_default(args.col_stride, whole(100))),
                f_mul(whole(n / cols), or_default(args.row_stride, whole(100))),
            )
        },
        ArrayMode::Radial => Extra::Turn {
            degrees: f_add(
                or_default(args.start_angle_degrees, Double { bits: 0 }),
                f_mul(whole(n), f_div(whole(360), whole(radial_count(args)))),
            ),
            center: array_center(args),
        },
    };
    (numbered(prefix, " "@, n), extra)
}

pub open spec fn array_copies(prefix: Seq<char>, args: ArrayArgs, len: nat) -> Seq<
    (Seq<char>, Extra),
> {
    Seq::new(len, |i: int| array_copy(prefix, args, (i + 1) as nat))
}

pub open spec fn array_message(
    mode: ArrayMode,
    n: nat,
    name: Seq<char>,
    grouped: bool,
) -> Seq<char> {
    let label = match mode {
        ArrayMode::Grid => "grid"@,
        ArrayMode::Radial => "radial"@,
    };
    "Created "@ + label + " "@ + label + " array: "@ + decimal_text(n) + " new copies of '"@ + name
        + "'"@ + if grouped {
        " (grouped)"@
    } else {
        ""@
    }
}

/// Repeats a node in a grid or round a point. The node itself is the first of the
/// array. All of it, the group too, is one entry of the history. The group takes the
/// place `index` of the node in its layer.
pub fn create_array(
    nodes: &Vec<Node>,
    id: u128,
    args: &ArrayArgs,
    limit: usize,
    index: usize,
) -> (r: Result<ArrayPlan, String>)
    ensures
        match r {
            Err(e) => array_error(nodes@, id, *args, limit) == Some(e@),
            Ok(p) => {
                let name = nodes@[position_of(nodes@, id)].name@;
                &&& array_error(nodes@, id, *args, limit) is None
                &&& p.source == position_of(nodes@, id)
                &&& p.layer == match args.layer_id {
                    Some(l) => l,
                    None => nodes@[position_of(nodes@, id)].layer,
                }
                &&& p.entries == 1
                &&& array_views(p.copies@) == array_copies(
                    array_prefix(nodes@, id, *args),
                    *args,
                    array_len(*args),
                )
                &&& match p.group {
                    Some(g) => args.group_result && g@ == name + " Array"@,
                    None => !args.group_result,
                }
                &&& p.group_index == index
                &&& p.message@ == array_message(
                    args.mode,
                    array_len(*args),
                    name,
                    args.group_result,
                )
            },
        },
{
    let k: usize = match find_node(nodes, id) {
        None => {
            return Err(around_id("Source node ", id, " not found"));
        },
        Some(k) => k,
    };
    let prefix: &str = match &args.name_prefix {
        Some(p) => p.as_str(),
        None => nodes[k].name.as_str(),
    };
    let rows: usize = one_or_more(args.rows, 2);
    let cols: usize = one_or_more(args.cols, 2);
    let count: usize = match args.count {
        Some(c) => c,
        None => 6,
    };
    let total: usize = match args.mode {
        ArrayMode::Grid => {
            let cells: usize = match rows.checked_mul(cols) {
                None => {
                    return Err(
                        "Grid dimensions overflow before array allocation (rows × cols)".to_owned(),
                    );
                },
                Some(c) => c,
            };
            if cells > limit {
                let mut v = chars_of("Grid must have at most ");
                push_all(&mut v, &number_text(limit as u64));
                push_str(&mut v, " cells (rows × cols)");
                return Err(text_of(&v));
            }
            if cells < 2 {
                return Err("Grid must have at least 2 cells (rows × cols ≥ 2)".to_owned());
            }
            cells
        },
        ArrayMode::Radial => {
            if count < 2 {
                return Err("Radial count must be ≥ 2".to_owned());
            }
            count
        },
    };
    let dx = given_or_default(args.col_stride, from_count(100));
    let dy = given_or_default(args.row_stride, from_count(100));
    let start = given_or_default(args.start_angle_degrees, Double { bits: 0 });
    let zero = Double { bits: 0 };
    let center = Point {
        x: given_or_default(args.center_x, zero),
        y: given_or_default(args.center_y, zero),
    };
    let step = if count > 0 {
        proof {
            lemma_positive(count as nat);
        }
        divided(from_count(360), from_count(count as u64))
    } else {
        start
    };
    let ghost goal = array_copies(prefix@, *args, (total - 1) as nat);
    let mut copies: Vec<ArrayCopy> = Vec::new();
    let mut n: usize = 1;
    assert(array_views(copies@) =~= goal.take(0));
    while n < total
        invariant
            1 <= n <= total,
            goal == array_copies(prefix@, *args, (total - 1) as nat),
            cols == at_least_one(args.cols, 2),
            cols >= 1,
            dx == or_default(args.col_stride, whole(100)),
            dy == or_default(args.row_stride, whole(100)),
            start == or_default(args.start_angle_degrees, Double { bits: 0 }),
            center == array_center(*args),
            args.mode == ArrayMode::Radial ==> count == radial_count(*args) && step == f_div(
                whole(360),
                whole(count as nat),
            ),
            array_views(copies@) == goal.take(n - 1),
        decreases total - n,
    {
        let extra = match args.mode {
            ArrayMode::Grid => Extra::Shift(
                times(from_count((n % cols) as u64), dx),
                times(from_count((n / cols) as u64), dy),
            ),
            ArrayMode::Radial => Extra::Turn {
                degrees: plus(start, times(from_count(n as u64), step)),
                center,
            },
        };
        let ghost before = copies@;
        copies.push(ArrayCopy { name: number_name(prefix, " ", n), extra });
        n += 1;
        assert(array_views(copies@) =~= array_views(before).push(goal[n - 2]));
        assert(goal.take(n - 1) =~= goal.take(n - 2).push(goal[n - 2]));
    }
    assert(array_views(copies@) =~= goal);
    let name = nodes[k].name.as_str();
    let label = match args.mode {
        ArrayMode::Grid => "grid",
        ArrayMode::Radial => "radial",
    };
    let mut v = chars_of("Created ");
    push_str(&mut v, label);
    push_str(&mut v, " ");
    push_str(&mut v, label);
    push_str(&mut v, " array: ");
    push_all(&mut v, &number_text((total - 1) as u64));
    push_str(&mut v, " new copies of '");
    push_str(&mut v, name);
    push_str(&mut v, "'");
    push_str(
        &mut v,
        if args.group_result {
            " (grouped)"
        } else {
            ""
        },
    );
    let group = if args.group_result {
        Some(joined(name, " Array"))
    } else {
        None
    };
    let layer: u128 = match args.layer_id {
        Some(l) => l,
        None => nodes[k].layer,
    };
    Ok(
        ArrayPlan {
            source: k,
            copies,
            layer,
            group,
            group_index: index,
            entries: 1,
            message: text_of(&v),
        },
    )
}

/// Why a source is not copied: nothing has its name, or the node is not there.
pub open spec fn source_error(nodes: Seq<Node>, name: Seq<char>) -> Option<Seq<char>> {
    match named_id(nodes, name) {
        None => Some("Node not found: "@ + name),
        Some(id) => if has_node(nodes, id) {
            None
        } else {
            Some("Source node not found"@)
        },
    }
}

fn find_source(nodes: &Vec<Node>, name: &str) -> (r: Result<usize, String>)
    ensures
        match r {
            Ok(k) => source_error(nodes@, name@) is None && k == target(nodes@, name@) && k
                < nodes.len(),
            Err(e) => source_error(nodes@, name@) == Some(e@),
        },
{
    match resolve_node_id(nodes, name) {
        None => Err(joined("Node not found: ", name)),
        Some(id) => match find_node(nodes, id) {
            None => Err("Source node not found".to_owned()),
            Some(k) => Ok(k),
        },
    }
}

#[derive(Debug)]
pub struct ScatterArgs {
    pub count: Option<usize>,
    pub x: Double,
    pub y: Double,
    pub width: Double,
    pub height: Double,
    pub rotation_range: Option<Double>,
    pub scale_range: Option<Double>,
}

/// A scattered copy: its name, its place, its turn in degrees, and its scale.
#[derive(Debug)]
pub struct Scattered {
    pub name: String,
    pub x: Double,
    pub y: Double,
    pub rotation: Double,
    pub scale: Double,
}

pub open spec fn scattered_views(v: Seq<Scattered>) -> Seq<
    (Seq<char>, Double, Double, Double, Double),
> {
    Seq::new(v.len(), |i: int| (v[i].name@, v[i].x, v[i].y, v[i].rotation, v[i].scale))
}

pub open spec fn rotates(args: ScatterArgs) -> bool {
    f_less(Double { bits: 0 }, f_abs(or_default(args.rotation_range, Double { bits: 0 })))
}

pub open spec fn scales(args: ScatterArgs) -> bool {
    f_less(Double { bits: 0 }, f_abs(or_default(args.scale_range, Double { bits: 0 })))
}

/// How many random numbers one copy takes.
pub open spec fn draws_per_copy(args: ScatterArgs) -> nat {
    2 + if rotates(args) {
        1nat
    } else {
        0
    } + if scales(args) {
        1nat
    } else {
        0
    }
}

/// 0.5 as a number.
pub const HALF: u64 = 0x3fe0_0000_0000_0000;

/// A random number from -1 to 1, brought to the stretch from `from` on.
pub open spec fn spread_over(v: Double, size: Double, from: Double) -> Double {
    f_add(f_mul(f_add(f_mul(v, Double { bits: HALF }), Double { bits: HALF }), size), from)
}

fn spread_value(v: Double, size: Double, from: Double) -> (r: Double)
    ensures
        r == spread_over(v, size, from),
{
    let h = Double { bits: HALF };
    plus(times(plus(times(v, h), h), size), from)
}

/// Copy `i`, from the random numbers in their order.
pub open spec fn scattered_copy(
    name: Seq<char>,
    args: ScatterArgs,
    values: Seq<Double>,
    i: nat,
) -> (Seq<char>, Double, Double, Double, Double) {
    let at = (i * draws_per_copy(args)) as int;
    let rotation = if rotates(args) {
        f_mul(values[at + 2], f_abs(or_default(args.rotation_range, Double { bits: 0 })))
    } else {
        Double { bits: 0 }
    };
    let scale = if scales(args) {
        f_add(
            Double { bits: ONE },
            f_mul(
                values[at + draws_per_copy(args) - 1],
                f_abs(or_default(args.scale_range, Double { bits: 0 })),
            ),
        )
    } else {
        Double { bits: ONE }
    };
    (
        numbered(name, " #"@, i + 1),
        spread_over(values[at], args.width, args.x),
        spread_over(values[at + 1], args.height, args.y),
        rotation,
        scale,
    )
}

/// Why nothing is scattered. `limit` is the number of copies that may be made.
pub open spec fn scatter_error(
    nodes: Seq<Node>,
    name: Seq<char>,
    args: ScatterArgs,
    limit: usize,
) -> Option<Seq<char>> {
    if at_least_one(args.count, 20) > limit {
        Some("scatter_copies may generate at most "@ + decimal_text(limit as nat) + " copies"@)
    } else {
        source_error(nodes, name)
    }
}

/// How many random numbers one copy takes.
pub fn draws_needed(args: &ScatterArgs) -> (r: usize)
    ensures
        r == draws_per_copy(*args),
{
    let zero = Double { bits: 0 };
    let mut n: usize = 2;
    if less(zero, absolute(given_or_default(args.rotation_range, zero))) {
        n += 1;
    }
    if less(zero, absolute(given_or_default(args.scale_range, zero))) {
        n += 1;
    }
    n
}

/// The node that is copied, and its copies.
#[derive(Debug)]
pub struct ScatterPlan {
    pub source: usize,
    pub copies: Vec<Scattered>,
    /// How many entries this adds to the history.
    pub entries: usize,
}

/// Scatters copies of a node over an area, by random numbers from -1 to 1.
pub fn scatter_copies(
    nodes: &Vec<Node>,
    name: &str,
    args: &ScatterArgs,
    limit: usize,
    values: &Vec<Double>,
) -> (r: Result<ScatterPlan, String>)
    requires
        at_least_one(args.count, 20) <= limit ==> values@.len() >= at_least_one(args.count, 20)
            * draws_per_copy(*args),
    ensures
        match r {
            Err(e) => scatter_error(nodes@, name@, *args, limit) == Some(e@),
            Ok(p) => {
                &&& scatter_error(nodes@, name@, *args, limit) is None
                &&& p.source == target(nodes@, name@)
                &&& p.entries == p.copies@.len()
                &&& scattered_views(p.copies@) == Seq::new(
                    at_least_one(args.count, 20),
                    |i: int|
                        scattered_copy(
                            nodes@[target(nodes@, name@)].name@,
                            *args,
                            values@,
                            i as nat,
                        ),
                )
            },
        },
{
    let count: usize = one_or_more(args.count, 20);
    if count > limit {
        let mut v = chars_of("scatter_copies may generate at most ");
        push_all(&mut v, &number_text(limit as u64));
        push_str(&mut v, " copies");
        return Err(text_of(&v));
    }
    let k: usize = match find_source(nodes, name) {
        Err(e) => {
            return Err(e);
        },
        Ok(k) => k,
    };
    let zero = Double { bits: 0 };
    let turn = absolute(given_or_default(args.rotation_range, zero));
    let grow = absolute(given_or_default(args.scale_range, zero));
    let turns = less(zero, turn);
    let grows = less(zero, grow);
    let per: usize = draws_needed(args);
    let ghost goal = Seq::new(
        count as nat,
        |i: int| scattered_copy(nodes@[k as int].name@, *args, values@, i as nat),
    );
    let mut out: Vec<Scattered> = Vec::new();
    let mut at: usize = 0;
    let mut i: usize = 0;
    assert(scattered_views(out@) =~= goal.take(0));
    assert(0 * per == 0);
    while i < count
        invariant
            i <= count,
            k < nodes.len(),
            count == at_least_one(args.count, 20),
            per == draws_per_copy(*args),
            at == i * per,
            values@.len() >= count * per,
            turn == f_abs(or_default(args.rotation_range, Double { bits: 0 })),
            grow == f_abs(or_default(args.scale_range, Double { bits: 0 })),
            turns == rotates(*args),
            grows == scales(*args),
            goal == Seq::new(
                count as nat,
                |i: int| scattered_copy(nodes@[k as int].name@, *args, values@, i as nat),
            ),
            scattered_views(out@) == goal.take(i as int),
        decreases count - i,
    {
        assert(at + per <= count * per) by (nonlinear_arith)
            requires
                at == i * per,
                i + 1 <= count,
        ;
        assert((i + 1) * per == at + per) by (nonlinear_arith)
            requires
                at == i * per,
        ;
        assert(values.len() == values@.len());
        assert(at + per <= values.len());
        let x = spread_value(values[at], args.width, args.x);
        let y = spread_value(values[at + 1], args.height, args.y);
        let rotation = if turns {
            times(values[at + 2], turn)
        } else {
            Double { bits: 0 }
        };
        let scale = if grows {
            plus(Double { bits: ONE }, times(values[at + per - 1], grow))
        } else {
            Double { bits: ONE }
        };
        let ghost before = out@;
        out.push(
            Scattered {
                name: number_name(nodes[k].name.as_str(), " #", i + 1),
                x,
                y,
                rotation,
                scale,
            },
        );
        i += 1;
        at += per;
        assert(scattered_views(out@) =~= scattered_views(before).push(goal[i - 1]));
        assert(goal.take(i as int) =~= goal.take(i - 1).push(goal[i - 1]));
    }
    assert(scattered_views(out@) =~= goal);
    Ok(ScatterPlan { source: k, entries: out.len(), copies: out })
}

/// The matrix of a scaling by `s` and a turn, with the given translation.
pub open spec fn turn_matrix(s: Double, cosine: Double, sine: Double, x: Double, y: Double) -> Affine {
    Affine {
        a: f_mul(s, cosine),
        b: f_mul(s, sine),
        c: f_mul(f_neg(s), sine),
        d: f_mul(s, cosine),
        e: x,
        f: y,
    }
}

/// The matrix of a scaling by `s` and a turn, with the given translation.
pub fn scatter_matrix(s: Double, cosine: Double, sine: Double, x: Double, y: Double) -> (r: Affine)
    ensures
        r == turn_matrix(s, cosine, sine, x, y),
{
    Affine {
        a: times(s, cosine),
        b: times(s, sine),
        c: times(negated(s), sine),
        d: times(s, cosine),
        e: x,
        f: y,
    }
}

#[derive(Debug)]
pub struct TransformCopiesArgs {
    pub copies: Option<usize>,
    pub translate_x: Option<Double>,
    pub translate_y: Option<Double>,
}

/// What the repeated steps come to for one copy: the cosine and the sine of its
/// turn, its scale, and what its opacity is taken times.
#[derive(Debug, Clone, Copy, PartialEq, Eq, Structural)]
pub struct CopyStep {
    pub cosine: Double,
    pub sine: Double,
    pub scale: Double,
    pub opacity: Double,
}

#[derive(Debug)]
pub struct SteppedCopy {
    pub name: String,
    pub transform: Affine,
    pub opacity: Double,
}

pub open spec fn stepped_views(v: Seq<SteppedCopy>) -> Seq<(Seq<char>, Affine, Double)> {
    Seq::new(v.len(), |i: int| (v[i].name@, v[i].transform, v[i].opacity))
}

/// `b` first, `a` behind it.
pub open spec fn composed(a: Affine, b: Affine) -> Affine {
    Affine {
        a: f_add(f_mul(a.a, b.a), f_mul(a.c, b.b)),
        b: f_add(f_mul(a.b, b.a), f_mul(a.d, b.b)),
        c: f_add(f_mul(a.a, b.c), f_mul(a.c, b.d)),
        d: f_add(f_mul(a.b, b.c), f_mul(a.d, b.d)),
        e: f_add(f_add(f_mul(a.a, b.e), f_mul(a.c, b.f)), a.e),
        f: f_add(f_add(f_mul(a.b, b.e), f_mul(a.d, b.f)), a.f),
    }
}

/// Two matrices as one.
pub fn compose(a: &Affine, b: &Affine) -> (r: Affine)
    ensures
        r == composed(*a, *b),
{
    Affine {
        a: plus(times(a.a, b.a), times(a.c, b.b)),
        b: plus(times(a.b, b.a), times(a.d, b.b)),
        c: plus(times(a.a, b.c), times(a.c, b.d)),
        d: plus(times(a.b, b.c), times(a.d, b.d)),
        e: plus(plus(times(a.a, b.e), times(a.c, b.f)), a.e),
        f: plus(plus(times(a.b, b.e), times(a.d, b.f)), a.f),
    }
}

/// Copy number `i`.
pub open spec fn stepped_copy(node: Node, args: TransformCopiesArgs, s: CopyStep, i: nat) -> (
    Seq<char>,
    Affine,
    Double,
) {
    let zero = (Double { bits: 0 });
    (
        numbered(node.name@, " Copy "@, i),
        composed(
            turn_matrix(
                s.scale,
                s.cosine,
                s.sine,
                f_mul(or_default(args.translate_x, zero), whole(i)),
                f_mul(or_default(args.translate_y, zero), whole(i)),
            ),
            node.transform,
        ),
        f_clamp(f_narrow(f_mul(node.opacity, s.opacity)), zero, Double { bits: ONE }),
    )
}

/// The node that is copied, and its copies.
#[derive(Debug)]
pub struct SteppedPlan {
    pub source: usize,
    pub copies: Vec<SteppedCopy>,
    /// How many entries this adds to the history.
    pub entries: usize,
}

/// Copies of a node, each transformed a step further than the one before it.
pub fn transform_copies(
    nodes: &Vec<Node>,
    name: &str,
    args: &TransformCopiesArgs,
    steps: &Vec<CopyStep>,
) -> (r: Result<SteppedPlan, String>)
    requires
        steps@.len() == at_least_one(args.copies, 5),
    ensures
        match r {
            Err(e) => source_error(nodes@, name@) == Some(e@),
            Ok(p) => {
                &&& source_error(nodes@, name@) is None
                &&& p.source == target(nodes@, name@)
                &&& p.entries == p.copies@.len()
                &&& stepped_views(p.copies@) == Seq::new(
                    at_least_one(args.copies, 5),
                    |i: int|
                        stepped_copy(
                            nodes@[target(nodes@, name@)],
                            *args,
                            steps@[i],
                            (i + 1) as nat,
                        ),
                )
            },
        },
{
    let k: usize = match find_source(nodes, name) {
        Err(e) => {
            return Err(e);
        },
        Ok(k) => k,
    };
    let zero = Double { bits: 0 };
    let tx = given_or_default(args.translate_x, zero);
    let ty = given_or_default(args.translate_y, zero);
    let n: usize = steps.len();
    let ghost goal = Seq::new(
        n as nat,
        |i: int| stepped_copy(nodes@[k as int], *args, steps@[i], (i + 1) as nat),
    );
    let mut out: Vec<SteppedCopy> = Vec::new();
    let mut i: usize = 0;
    assert(stepped_views(out@) =~= goal.take(0));
    while i < n
        invariant
            i <= n,
            n == steps.len(),
            k < nodes.len(),
            zero == (Double { bits: 0 }),
            tx == or_default(args.translate_x, zero),
            ty == or_default(args.translate_y, zero),
            goal == Seq::new(
                n as nat,
                |i: int| stepped_copy(nodes@[k as int], *args, steps@[i], (i + 1) as nat),
            ),
            stepped_views(out@) == goal.take(i as int),
        decreases n - i,
    {
        let s = steps[i];
        let node = &nodes[k];
        let number = from_count((i + 1) as u64);
        let step = scatter_matrix(
            s.scale,
            s.cosine,
            s.sine,
            times(tx, number),
            times(ty, number),
        );
        let opacity = clamped(
            narrowed(times(node.opacity, s.opacity)),
            zero,
            Double { bits: ONE },
        );
        let ghost before = out@;
        out.push(
            SteppedCopy {
                name: number_name(node.name.as_str(), " Copy ", i + 1),
                transform: compose(&step, &node.transform),
                opacity,
            },
        );
        i += 1;
        assert(stepped_views(out@) =~= stepped_views(before).push(goal[i - 1]));
        assert(goal.take(i as int) =~= goal.take(i - 1).push(goal[i - 1]));
    }
    assert(stepped_views(out@) =~= goal);
    Ok(SteppedPlan { source: k, entries: out.len(), copies: out })
}

#[derive(Debug)]
pub struct SplitArgs {
    pub id: u128,
    pub rows: usize,
    pub cols: usize,
    pub gutter_x: Option<Double>,
    pub gutter_y: Option<Double>,
    /// The layer of the cells; that of the path where none is given.
    pub layer_id: Option<u128>,
    pub keep_original: Option<bool>,
}

/// Why a path is not split. The numbers are for the text of the message.
#[derive(Debug)]
pub enum SplitError {
    Message(String),
    /// The columns have no width: the gutter, and the width that is left.
    NoWidth(Double, Double),
    /// The rows have no height: the gutter, and the height that is left.
    NoHeight(Double, Double),
}

pub enum SplitErrorView {
    Message(Seq<char>),
    NoWidth(Double, Double),
    NoHeight(Double, Double),
}

impl View for SplitError {
    type V = SplitErrorView;

    open spec fn view(&self) -> SplitErrorView {
        match *self {
            SplitError::Message(s) => SplitErrorView::Message(s@),
            SplitError::NoWidth(g, w) => SplitErrorView::NoWidth(g, w),
            SplitError::NoHeight(g, h) => SplitErrorView::NoHeight(g, h),
        }
    }
}

/// A rectangle of a grid.
#[derive(Debug)]
pub struct GridCell {
    pub name: String,
    pub x: Double,
    pub y: Double,
}

pub open spec fn cell_views(v: Seq<GridCell>) -> Seq<(Seq<char>, Double, Double)> {
    Seq::new(v.len(), |i: int| (v[i].name@, v[i].x, v[i].y))
}

#[derive(Debug)]
pub struct SplitPlan {
    pub source: usize,
    pub cells: Vec<GridCell>,
    pub cell_width: Double,
    pub cell_height: Double,
    pub layer: u128,
    pub keep: bool,
    /// How many entries this adds to the history.
    pub entries: usize,
    pub message: String,
}

pub open spec fn gutter(g: Option<Double>) -> Double {
    f_max(or_default(g, Double { bits: 0 }), Double { bits: 0 })
}

/// The size of one of `n` cells, with gutters between them.
pub open spec fn cell_size(from: Double, to: Double, gutter: Double, n: nat) -> Double {
    f_div(
        f_sub(f_sub(to, from), f_mul(gutter, f_sub(whole(n), Double { bits: ONE }))),
        whole(n),
    )
}

/// What is split: the box of the path in the world.
pub open spec fn split_box(nodes: Seq<Node>, id: u128) -> Bounds {
    let node = nodes[position_of(nodes, id)];
    world_bounds(node.bounds->0, node.transform)
}

/// Why a path is not split. `limit` is the number of cells that may be made.
pub open spec fn split_error(nodes: Seq<Node>, args: SplitArgs, limit: usize) -> Option<
    SplitErrorView,
> {
    let node = nodes[position_of(nodes, args.id)];
    let b = split_box(nodes, args.id);
    let w = cell_size(b.x0, b.x1, gutter(args.gutter_x), args.cols as nat);
    let h = cell_size(b.y0, b.y1, gutter(args.gutter_y), args.rows as nat);
    let zero = (Double { bits: 0 });
    if args.rows == 0 {
        Some(SplitErrorView::Message("rows must be ≥ 1"@))
    } else if args.cols == 0 {
        Some(SplitErrorView::Message("cols must be ≥ 1"@))
    } else if args.rows * args.cols > usize::MAX {
        Some(SplitErrorView::Message("rows × cols overflow before grid allocation"@))
    } else if args.rows * args.cols > limit {
        Some(
            SplitErrorView::Message(
                "split_into_grid may generate at most "@ + decimal_text(limit as nat)
                    + " cells (rows × cols)"@,
            ),
        )
    } else if !has_node(nodes, args.id) {
        Some(SplitErrorView::Message("node "@ + id_text(args.id) + " not found"@))
    } else if node.kind != NodeKind::Path {
        Some(SplitErrorView::Message("split_into_grid requires a path node"@))
    } else if node.bounds is None {
        Some(SplitErrorView::Message("source path has no computable bounding box"@))
    } else if f_at_most(w, zero) {
        Some(SplitErrorView::NoWidth(gutter(args.gutter_x), w))
    } else if f_at_most(h, zero) {
        Some(SplitErrorView::NoHeight(gutter(args.gutter_y), h))
    } else {
        None
    }
}

/// Cell number `i`, row by row.
pub open spec fn grid_cell(
    name: Seq<char>,
    b: Bounds,
    w: Double,
    h: Double,
    args: SplitArgs,
    i: nat,
) -> (Seq<char>, Double, Double) {
    let r = i / args.cols as nat;
    let c = i % args.cols as nat;
    (
        name + " "@ + decimal_text(r + 1) + ","@ + decimal_text(c + 1),
        f_add(b.x0, f_mul(whole(c), f_add(w, gutter(args.gutter_x)))),
        f_add(b.y0, f_mul(whole(r), f_add(h, gutter(args.gutter_y)))),
    )
}

pub open spec fn split_message(
    rows: nat,
    cols: nat,
    count: nat,
    name: Seq<char>,
    keep: bool,
) -> Seq<char> {
    "Split into "@ + decimal_text(rows) + "×"@ + decimal_text(cols) + " grid — created "@
        + decimal_text(count) + " rectangle"@ + (if count == 1 {
        ""@
    } else {
        "s"@
    }) + " from \""@ + name + "\""@ + if keep {
        " (original kept)"@
    } else {
        " (original removed)"@
    }
}

fn size_of_cell(from: Double, to: Double, gutter: Double, n: usize) -> (r: Double)
    requires
        n > 0,
    ensures
        r == cell_size(from, to, gutter, n as nat),
{
    proof {
        lemma_positive(n as nat);
    }
    let count = from_count(n as u64);
    divided(
        minus(minus(to, from), times(gutter, minus(count, Double { bits: ONE }))),
        count,
    )
}

/// Divides the box of a path into a grid of rectangles.
pub fn split_into_grid(nodes: &Vec<Node>, args: &SplitArgs, limit: usize) -> (r: Result<
    SplitPlan,
    SplitError,
>)
    ensures
        match r {
            Err(e) => split_error(nodes@, *args, limit) == Some(e@),
            Ok(p) => {
                let b = split_box(nodes@, args.id);
                let name = nodes@[position_of(nodes@, args.id)].name@;
                &&& split_error(nodes@, *args, limit) is None
                &&& p.source == position_of(nodes@, args.id)
                &&& p.cell_width == cell_size(
                    b.x0,
                    b.x1,
                    gutter(args.gutter_x),
                    args.cols as nat,
                )
                &&& p.cell_height == cell_size(
                    b.y0,
                    b.y1,
                    gutter(args.gutter_y),
                    args.rows as nat,
                )
                &&& cell_views(p.cells@) == Seq::new(
                    (args.rows * args.cols) as nat,
                    |i: int| grid_cell(name, b, p.cell_width, p.cell_height, *args, i as nat),
                )
                &&& p.layer == (match args.layer_id {
                    Some(l) => l,
                    None => nodes@[position_of(nodes@, args.id)].layer,
                })
                &&& p.keep == (args.keep_original == Some(true))
                &&& p.entries == 1
                &&& p.message@ == split_message(
                    args.rows as nat,
                    args.cols as nat,
                    (args.rows * args.cols) as nat,
                    name,
                    p.keep,
                )
            },
        },
{
    if args.rows == 0 {
        return Err(SplitError::Message("rows must be ≥ 1".to_owned()));
    }
    if args.cols == 0 {
        return Err(SplitError::Message("cols must be ≥ 1".to_owned()));
    }
    let total: usize = match args.rows.checked_mul(args.cols) {
        None => {
            return Err(
                SplitError::Message("rows × cols overflow before grid allocation".to_owned()),
            );
        },
        Some(t) => t,
    };
    if total > limit {
        let mut v = chars_of("split_into_grid may generate at most ");
        push_all(&mut v, &number_text(limit as u64));
        push_str(&mut v, " cells (rows × cols)");
        return Err(SplitError::Message(text_of(&v)));
    }
    let k: usize = match find_node(nodes, args.id) {
        None => {
            return Err(SplitError::Message(around_id("node ", args.id, " not found")));
        },
        Some(k) => k,
    };
    let node = &nodes[k];
    if node.kind != NodeKind::Path {
        return Err(SplitError::Message("split_into_grid requires a path node".to_owned()));
    }
    let b = match &node.bounds {
        None => {
            return Err(
                SplitError::Message("source path has no computable bounding box".to_owned()),
            );
        },
        Some(b) => world_box(b, &node.transform),
    };
    let zero = Double { bits: 0 };
    let gx = maximum(given_or_default(args.gutter_x, zero), zero);
    let gy = maximum(given_or_default(args.gutter_y, zero), zero);
    let w = size_of_cell(b.x0, b.x1, gx, args.cols);
    let h = size_of_cell(b.y0, b.y1, gy, args.rows);
    if at_most(w, zero) {
        return Err(SplitError::NoWidth(gx, w));
    }
    if at_most(h, zero) {
        return Err(SplitError::NoHeight(gy, h));
    }
    let name = node.name.as_str();
    let ghost goal = Seq::new(
        total as nat,
        |i: int| grid_cell(name@, b, w, h, *args, i as nat),
    );
    let step_x = plus(w, gx);
    let step_y = plus(h, gy);
    let mut cells: Vec<GridCell> = Vec::new();
    let mut i: usize = 0;
    assert(cell_views(cells@) =~= goal.take(0));
    while i < total
        invariant
            i <= total,
            args.cols > 0,
            step_x == f_add(w, gutter(args.gutter_x)),
            step_y == f_add(h, gutter(args.gutter_y)),
            goal == Seq::new(
                total as nat,
                |i: int| grid_cell(name@, b, w, h, *args, i as nat),
            ),
            cell_views(cells@) == goal.take(i as int),
        decreases total - i,
    {
        let r: usize = i / args.cols;
        let c: usize = i % args.cols;
        proof {
            assert(r <= i) by (nonlinear_arith)
                requires
                    args.cols >= 1,
                    r == i / args.cols,
            ;
            assert(c <= i) by {
                vstd::arithmetic::div_mod::lemma_mod_decreases(i as nat, args.cols as nat);
            }
        }
        let mut v = chars_of(name);
        push_str(&mut v, " ");
        push_all(&mut v, &number_text((r + 1) as u64));
        push_str(&mut v, ",");
        push_all(&mut v, &number_text((c + 1) as u64));
        let ghost before = cells@;
        cells.push(
            GridCell {
                name: text_of(&v),
                x: plus(b.x0, times(from_count(c as u64), step_x)),
                y: plus(b.y0, times(from_count(r as u64), step_y)),
            },
        );
        i += 1;
        assert(cell_views(cells@) =~= cell_views(before).push(goal[i - 1]));
        assert(goal.take(i as int) =~= goal.take(i - 1).push(goal[i - 1]));
    }
    assert(cell_views(cells@) =~= goal);
    let keep = match args.keep_original {
        Some(b) => b,
        None => false,
    };
    let mut v = chars_of("Split into ");
    push_all(&mut v, &number_text(args.rows as u64));
    push_str(&mut v, "×");
    push_all(&mut v, &number_text(args.cols as u64));
    push_str(&mut v, " grid — created ");
    push_all(&mut v, &number_text(total as u64));
    push_str(&mut v, " rectangle");
    push_str(
        &mut v,
        if total == 1 {
            ""
        } else {
            "s"
        },
    );
    push_str(&mut v, " from \"");
    push_str(&mut v, name);
    push_str(&mut v, "\"");
    push_str(
        &mut v,
        if keep {
            " (original kept)"
        } else {
            " (original removed)"
        },
    );
    Ok(
        SplitPlan {
            source: k,
            cells,
            cell_width: w,
            cell_height: h,
            layer: match args.layer_id {
                Some(l) => l,
                None => node.layer,
            },
            keep,
            entries: 1,
            message: text_of(&v),
        },
    )
}

/// A point on a path, with the cosine and the sine of the path's direction there.
#[derive(Debug, Clone, Copy, PartialEq, Eq, Structural)]
pub struct PathSample {
    pub x: Double,
    pub y: Double,
    pub cosine: Double,
    pub sine: Double,
}

#[derive(Debug)]
pub struct PathCopy {
    pub source: usize,
    pub name: String,
    pub transform: Affine,
}

pub open spec fn path_copy_views(v: Seq<PathCopy>) -> Seq<(usize, Seq<char>, Affine)> {
    Seq::new(v.len(), |i: int| (v[i].source, v[i].name@, v[i].transform))
}

#[derive(Debug)]
pub struct OnPathPlan {
    pub path: usize,
    pub copies: Vec<PathCopy>,
    pub layer: u128,
    /// How many entries this adds to the history.
    pub entries: usize,
    pub message: String,
}

/// How many places are taken on the path.
pub fn places_on_path(count: Option<usize>, sources: usize) -> (r: usize)
    ensures
        r == match count {
            Some(c) => at_least_one(Some(c), 1),
            None => at_least_one(Some(sources), 1),
        },
{
    match count {
        Some(c) => one_or_more(Some(c), 1),
        None => one_or_more(Some(sources), 1),
    }
}

/// Why nothing is put on a path.
pub open spec fn on_path_error(
    nodes: Seq<Node>,
    ids: Seq<u128>,
    path: u128,
    samples: nat,
) -> Option<Seq<char>> {
    if ids.len() == 0 {
        Some("node_ids must not be empty"@)
    } else if !has_node(nodes, path) {
        Some("path_node_id "@ + id_text(path) + " not found"@)
    } else if nodes[position_of(nodes, path)].kind != NodeKind::Path {
        Some("path_node_id must reference a path node"@)
    } else {
        match first_missing(nodes, ids) {
            Some(id) => Some("node_id "@ + id_text(id) + " not found"@),
            None => if samples == 0 {
                Some("Path has no geometry to distribute along"@)
            } else {
                None
            },
        }
    }
}

/// The matrix of a node that is put at a point of a path, turned along it where
/// `align` is set.
pub open spec fn on_path_matrix(m: Affine, s: PathSample, align: bool) -> Affine {
    let moved = Affine { e: f_add(s.x, m.e), f: f_add(s.y, m.f), ..m };
    if align {
        Affine {
            a: f_add(f_mul(m.a, s.cosine), f_mul(m.c, s.sine)),
            b: f_add(f_mul(m.b, s.cosine), f_mul(m.d, s.sine)),
            c: f_add(f_mul(f_neg(m.a), s.sine), f_mul(m.c, s.cosine)),
            d: f_add(f_mul(f_neg(m.b), s.sine), f_mul(m.d, s.cosine)),
            ..moved
        }
    } else {
        moved
    }
}

/// Copy `k`: the nodes take turns.
pub open spec fn path_copy(
    nodes: Seq<Node>,
    ids: Seq<u128>,
    s: PathSample,
    align: bool,
    k: int,
) -> (usize, Seq<char>, Affine) {
    let at = position_of(nodes, ids[k % ids.len() as int]);
    (
        at as usize,
        numbered(nodes[at].name@, " "@, (k + 1) as nat),
        on_path_matrix(nodes[at].transform, s, align),
    )
}

fn put_on_path(m: &Affine, s: &PathSample, align: bool) -> (r: Affine)
    ensures
        r == on_path_matrix(*m, *s, align),
{
    let moved = Affine { e: plus(s.x, m.e), f: plus(s.y, m.f), ..*m };
    if align {
        Affine {
            a: plus(times(m.a, s.cosine), times(m.c, s.sine)),
            b: plus(times(m.b, s.cosine), times(m.d, s.sine)),
            c: plus(times(negated(m.a), s.sine), times(m.c, s.cosine)),
            d: plus(times(negated(m.b), s.sine), times(m.d, s.cosine)),
            ..moved
        }
    } else {
        moved
    }
}

/// Puts copies of nodes at the points of a path, on the path's layer where no other is
/// given.
pub fn distribute_on_path(
    nodes: &Vec<Node>,
    ids: &Vec<u128>,
    path: u128,
    samples: &Vec<PathSample>,
    align: bool,
    layer_id: Option<u128>,
) -> (r: Result<OnPathPlan, String>)
    ensures
        match r {
            Err(e) => on_path_error(nodes@, ids@, path, samples@.len()) == Some(e@),
            Ok(p) => {
                &&& on_path_error(nodes@, ids@, path, samples@.len()) is None
                &&& p.path == position_of(nodes@, path)
                &&& path_copy_views(p.copies@) == Seq::new(
                    samples@.len(),
                    |k: int| path_copy(nodes@, ids@, samples@[k], align, k),
                )
                &&& p.layer == (match layer_id {
                    Some(l) => l,
                    None => nodes@[position_of(nodes@, path)].layer,
                })
                &&& p.entries == 1
                &&& p.message@ == "Distributed "@ + decimal_text(samples@.len())
                    + " node(s) across "@ + decimal_text(samples@.len())
                    + " position(s) along path '"@ + nodes@[position_of(nodes@, path)].name@ + "'"@
            },
        },
{
    if ids.len() == 0 {
        return Err("node_ids must not be empty".to_owned());
    }
    let at: usize = match find_node(nodes, path) {
        None => {
            return Err(around_id("path_node_id ", path, " not found"));
        },
        Some(k) => k,
    };
    if nodes[at].kind != NodeKind::Path {
        return Err("path_node_id must reference a path node".to_owned());
    }
    let mut places: Vec<usize> = Vec::new();
    let mut i: usize = 0;
    assert(ids@.take(0) =~= Seq::<u128>::empty());
    while i < ids.len()
        invariant
            i <= ids.len(),
            ids.len() > 0,
            has_node(nodes@, path),
            nodes@[position_of(nodes@, path)].kind == NodeKind::Path,
            first_missing(nodes@, ids@.take(i as int)) is None,
            places.len() == i,
            forall|j: int|
                0 <= j < i ==> (#[trigger] places@[j]) == position_of(nodes@, ids@[j])
                    && places@[j] < nodes.len(),
        decreases ids.len() - i,
    {
        proof {
            assert(ids@.take(i + 1).drop_last() =~= ids@.take(i as int));
            assert(ids@.take(i + 1).last() == ids@[i as int]);
        }
        match find_node(nodes, ids[i]) {
            None => {
                proof {
                    lemma_first_missing(nodes@, ids@, i + 1);
                }
                return Err(around_id("node_id ", ids[i], " not found"));
            },
            Some(k) => {
                places.push(k);
            },
        }
        i += 1;
    }
    assert(ids@.take(ids@.len() as int) =~= ids@);
    if samples.len() == 0 {
        return Err("Path has no geometry to distribute along".to_owned());
    }
    let ghost goal = Seq::new(
        samples@.len(),
        |k: int| path_copy(nodes@, ids@, samples@[k], align, k),
    );
    let mut copies: Vec<PathCopy> = Vec::new();
    let mut k: usize = 0;
    assert(path_copy_views(copies@) =~= goal.take(0));
    while k < samples.len()
        invariant
            k <= samples.len(),
            places.len() == ids.len(),
            ids.len() > 0,
            forall|j: int|
                0 <= j < ids.len() ==> (#[trigger] places@[j]) == position_of(nodes@, ids@[j])
                    && places@[j] < nodes.len(),
            goal == Seq::new(
                samples@.len(),
                |k: int| path_copy(nodes@, ids@, samples@[k], align, k),
            ),
            path_copy_views(copies@) == goal.take(k as int),
        decreases samples.len() - k,
    {
        let turn: usize = k % ids.len();
        let p: usize = places[turn];
        let ghost before = copies@;
        copies.push(
            PathCopy {
                source: p,
                name: number_name(nodes[p].name.as_str(), " ", k + 1),
                transform: put_on_path(&nodes[p].transform, &samples[k], align),
            },
        );
        k += 1;
        assert(path_copy_views(copies@) =~= path_copy_views(before).push(goal[k - 1]));
        assert(goal.take(k as int) =~= goal.take(k - 1).push(goal[k - 1]));
    }
    assert(path_copy_views(copies@) =~= goal);
    let mut v = chars_of("Distributed ");
    push_all(&mut v, &number_text(samples.len() as u64));
    push_str(&mut v, " node(s) across ");
    push_all(&mut v, &number_text(samples.len() as u64));
    push_str(&mut v, " position(s) along path '");
    push_str(&mut v, nodes[at].name.as_str());
    push_str(&mut v, "'");
    let layer: u128 = match layer_id {
        Some(l) => l,
        None => nodes[at].layer,
    };
    Ok(OnPathPlan { path: at, copies, layer, entries: 1, message: text_of(&v) })
}

/// The bits of a full turn in radians.
pub const FULL_TURN: u64 = 0x4019_21fb_5444_2d18;

/// A copy that is turned, by an angle in radians.
#[derive(Debug)]
pub struct TurnedCopy {
    pub name: String,
    pub angle: Double,
}

pub open spec fn turned_views(v: Seq<TurnedCopy>) -> Seq<(Seq<char>, Double)> {
    Seq::new(v.len(), |i: int| (v[i].name@, v[i].angle))
}

#[derive(Debug)]
pub struct RotatePlan {
    pub source: usize,
    pub center: Point,
    pub copies: Vec<TurnedCopy>,
    /// The name of the group, where the copies are grouped.
    pub group: Option<String>,
    /// Where the group stands in its layer.
    pub group_index: usize,
    pub layer: u128,
    /// How many entries this adds to the history: the copies are one, but each is one of
    /// its own where they are grouped, and so is the group.
    pub entries: usize,
    pub message: String,
}

pub open spec fn rotate_error(nodes: Seq<Node>, name: Seq<char>, count: usize) -> Option<
    Seq<char>,
> {
    if count < 2 {
        Some("count must be at least 2."@)
    } else if !is_target(nodes, name) {
        Some(quoted_name("Node"@, name, " not found."@))
    } else {
        None
    }
}

/// The point that copies are turned about: the one that is given, the middle of
/// the node, or the place where its origin stands.
pub open spec fn turn_center(node: Node, cx: Option<Double>, cy: Option<Double>) -> Point {
    if cx is Some && cy is Some {
        Point { x: cx->0, y: cy->0 }
    } else {
        match node.bounds {
            Some(b) => {
                let p = mapped(node.transform, Point { x: b.x0, y: b.y0 });
                let q = mapped(node.transform, Point { x: b.x1, y: b.y1 });
                Point { x: half(f_add(p.x, q.x)), y: half(f_add(p.y, q.y)) }
            },
            None => mapped(
                node.transform,
                Point { x: Double { bits: 0 }, y: Double { bits: 0 } },
            ),
        }
    }
}

pub open spec fn turned_copy(name: Seq<char>, count: nat, i: nat) -> (Seq<char>, Double) {
    (
        numbered(name, " copy "@, i),
        f_mul(f_div(Double { bits: FULL_TURN }, whole(count)), whole(i)),
    )
}

fn find_center(node: &Node, cx: Option<Double>, cy: Option<Double>) -> (r: Point)
    ensures
        r == turn_center(*node, cx, cy),
{
    if let Some(x) = cx {
        if let Some(y) = cy {
            return Point { x, y };
        }
    }
    match &node.bounds {
        Some(b) => {
            let p = map_point(&node.transform, Point { x: b.x0, y: b.y0 });
            let q = map_point(&node.transform, Point { x: b.x1, y: b.y1 });
            Point { x: halved(plus(p.x, q.x)), y: halved(plus(p.y, q.y)) }
        },
        None => map_point(
            &node.transform,
            Point { x: Double { bits: 0 }, y: Double { bits: 0 } },
        ),
    }
}

/// Copies of a node, evenly turned about a point. The node itself is the first.
pub fn rotate_copies(
    nodes: &Vec<Node>,
    name: &str,
    count: usize,
    cx: Option<Double>,
    cy: Option<Double>,
    group: bool,
) -> (r: Result<RotatePlan, String>)
    ensures
        match r {
            Err(e) => rotate_error(nodes@, name@, count) == Some(e@),
            Ok(p) => {
                let node = nodes@[target(nodes@, name@)];
                &&& rotate_error(nodes@, name@, count) is None
                &&& p.source == target(nodes@, name@)
                &&& p.center == turn_center(node, cx, cy)
                &&& turned_views(p.copies@) == Seq::new(
                    (count - 1) as nat,
                    |i: int| turned_copy(node.name@, count as nat, (i + 1) as nat),
                )
                &&& match p.group {
                    Some(g) => group && g@ == numbered(node.name@, " ×"@, count as nat),
                    None => !group,
                }
                &&& p.group_index == 0
                &&& p.layer == node.layer
                &&& p.entries == if group {
                    count as int
                } else {
                    1
                }
                &&& p.message@ == if group {
                    "Created "@ + decimal_text((count - 1) as nat)
                        + " rotational copies grouped as one node."@
                } else {
                    "Created "@ + decimal_text((count - 1) as nat) + " rotational copies of '"@
                        + node.name@ + "'."@
                }
            },
        },
{
    if count < 2 {
        return Err("count must be at least 2.".to_owned());
    }
    let missing = quoted_text("Node", name, " not found.");
    let k: usize = match resolve_node_id(nodes, name) {
        None => {
            return Err(missing);
        },
        Some(id) => match find_node(nodes, id) {
            None => {
                return Err(missing);
            },
            Some(k) => k,
        },
    };
    let node = &nodes[k];
    proof {
        lemma_positive(count as nat);
    }
    let step = divided(Double { bits: FULL_TURN }, from_count(count as u64));
    let ghost goal = Seq::new(
        (count - 1) as nat,
        |i: int| turned_copy(node.name@, count as nat, (i + 1) as nat),
    );
    let mut copies: Vec<TurnedCopy> = Vec::new();
    let mut i: usize = 1;
    assert(turned_views(copies@) =~= goal.take(0));
    while i < count
        invariant
            1 <= i <= count,
            step == f_div(Double { bits: FULL_TURN }, whole(count as nat)),
            goal == Seq::new(
                (count - 1) as nat,
                |i: int| turned_copy(node.name@, count as nat, (i + 1) as nat),
            ),
            turned_views(copies@) == goal.take(i - 1),
        decreases count - i,
    {
        let ghost before = copies@;
        copies.push(
            TurnedCopy {
                name: number_name(node.name.as_str(), " copy ", i),
                angle: times(step, from_count(i as u64)),
            },
        );
        i += 1;
        assert(turned_views(copies@) =~= turned_views(before).push(goal[i - 2]));
        assert(goal.take(i - 1) =~= goal.take(i - 2).push(goal[i - 2]));
    }
    assert(turned_views(copies@) =~= goal);
    let mut v = chars_of("Created ");
    push_all(&mut v, &number_text((count - 1) as u64));
    if group {
        push_str(&mut v, " rotational copies grouped as one node.");
    } else {
        push_str(&mut v, " rotational copies of '");
        push_str(&mut v, node.name.as_str());
        push_str(&mut v, "'.");
    }
    let group_name = if group {
        Some(number_name(node.name.as_str(), " ×", count))
    } else {
        None
    };
    Ok(
        RotatePlan {
            source: k,
            center: find_center(node, cx, cy),
            copies,
            group: group_name,
            group_index: 0,
            layer: node.layer,
            entries: if group {
                count
            } else {
                1
            },
            message: text_of(&v),
        },
    )
}

/// The matrix of a turned copy: the linear part is that of the node with the turn
/// behind it, and the node's place is turned.
pub fn turned_matrix(node: &Affine, with_turn: &Affine, turn: &Affine) -> (r: Affine)
    ensures
        ({
            let p = mapped(*turn, Point { x: node.e, y: node.f });
            r == Affine { e: p.x, f: p.y, ..*with_turn }
        }),
{
    let p = map_point(turn, Point { x: node.e, y: node.f });
    Affine { e: p.x, f: p.y, ..*with_turn }
}

/// A mirrored copy: its source, its name, the layer that it goes to, and what becomes
/// of its outline or of its matrix.
#[derive(Debug)]
pub struct MirroredCopy {
    pub source: usize,
    pub name: String,
    pub layer: u128,
    pub flipped: Flipped,
}

pub open spec fn mirrored_views(v: Seq<MirroredCopy>) -> Seq<
    (usize, Seq<char>, u128, FlippedView),
> {
    Seq::new(v.len(), |i: int| (v[i].source, v[i].name@, v[i].layer, v[i].flipped@))
}

/// The mirrored copy of the node at `k`, on the layer of the node.
pub open spec fn mirrored_copy(
    nodes: Seq<Node>,
    paths: Seq<Vec<PathEl>>,
    k: usize,
    horizontal: bool,
) -> (usize, Seq<char>, u128, FlippedView) {
    let node = nodes[k as int];
    (
        k,
        mirror_name(node.name@),
        node.layer,
        flipped_node(node, paths[k as int]@, horizontal, !horizontal),
    )
}

/// The mirrored copies, whether they are mirrored left to right, and how many entries
/// they add to the history.
#[derive(Debug)]
pub struct MirrorPlan {
    pub copies: Vec<MirroredCopy>,
    pub horizontal: bool,
    pub entries: usize,
}

pub open spec fn mirror_name(name: Seq<char>) -> Seq<char> {
    if name.len() == 0 {
        "mirror"@
    } else {
        name + " mirror"@
    }
}

/// Mirrored copies of nodes: left to right, unless the axis is `vertical`. `paths`
/// holds the outline of each node.
pub fn mirror_copy(
    nodes: &Vec<Node>,
    paths: &Vec<Vec<PathEl>>,
    selection: &Vec<u128>,
    names: &Vec<String>,
    axis: &Option<String>,
) -> (r: Result<MirrorPlan, String>)
    requires
        paths.len() == nodes.len(),
    ensures
        ({
            let ids = targets(nodes@, selection@, texts(names@));
            let found = found_positions(nodes@, ids, false);
            match r {
                Err(e) => if ids.len() == 0 {
                    e@ == "No nodes specified and nothing selected"@
                } else {
                    found.len() == 0 && e@ == "No nodes found to mirror"@
                },
                Ok(p) => {
                    &&& found.len() > 0
                    &&& mirrored_views(p.copies@) == Seq::new(
                        found.len(),
                        |i: int| mirrored_copy(nodes@, paths@, found[i], p.horizontal),
                    )
                    &&& p.horizontal == !(axis matches Some(a) && a@ == "vertical"@)
                    &&& p.entries == 1
                },
            }
        }),
{
    let horizontal = match axis {
        Some(a) => !same_text(a.as_str(), "vertical"),
        None => true,
    };
    let ids = resolve_targets(nodes, selection, names);
    if ids.len() == 0 {
        return Err("No nodes specified and nothing selected".to_owned());
    }
    let positions = positions_found(nodes, &ids, false);
    if positions.len() == 0 {
        return Err("No nodes found to mirror".to_owned());
    }
    let ghost goal = Seq::new(
        positions@.len(),
        |i: int| mirrored_copy(nodes@, paths@, positions@[i], horizontal),
    );
    let mut out: Vec<MirroredCopy> = Vec::new();
    let mut i: usize = 0;
    assert(mirrored_views(out@) =~= goal.take(0));
    while i < positions.len()
        invariant
            i <= positions.len(),
            forall|i: int| 0 <= i < positions.len() ==> (#[trigger] positions@[i]) < nodes.len(),
            paths.len() == nodes.len(),
            goal == Seq::new(
                positions@.len(),
                |i: int| mirrored_copy(nodes@, paths@, positions@[i], horizontal),
            ),
            mirrored_views(out@) == goal.take(i as int),
        decreases positions.len() - i,
    {
        let k: usize = positions[i];
        let name = chars_of(nodes[k].name.as_str());
        let ghost before = out@;
        let title = if name.len() == 0 {
            "mirror".to_owned()
        } else {
            joined(nodes[k].name.as_str(), " mirror")
        };
        out.push(
            MirroredCopy {
                source: k,
                name: title,
                layer: nodes[k].layer,
                flipped: flip_node(&nodes[k], &paths[k], horizontal, !horizontal),
            },
        );
        i += 1;
        assert(mirrored_views(out@) =~= mirrored_views(before).push(goal[i - 1]));
        assert(goal.take(i as int) =~= goal.take(i - 1).push(goal[i - 1]));
    }
    assert(mirrored_views(out@) =~= goal);
    Ok(MirrorPlan { copies: out, horizontal, entries: 1 })
}

/// The written ids.
pub open spec fn id_texts(ids: Seq<u128>) -> Seq<Seq<char>> {
    Seq::new(ids.len(), |i: int| id_text(ids[i]))
}

/// What is said about mirrored copies with these ids.
pub fn mirror_message(ids: &Vec<u128>, horizontal: bool) -> (r: String)
    ensures
        r@ == "Created "@ + decimal_text(ids@.len()) + " mirrored cop"@ + (if ids@.len() == 1 {
            "y"@
        } else {
            "ies"@
        }) + " ("@ + (if horizontal {
            "horizontally"@
        } else {
            "vertically"@
        }) + "). New node IDs: "@ + join(id_texts(ids@), ", "@),
{
    let mut v = chars_of("Created ");
    push_all(&mut v, &number_text(ids.len() as u64));
    push_str(&mut v, " mirrored cop");
    push_str(
        &mut v,
        if ids.len() == 1 {
            "y"
        } else {
            "ies"
        },
    );
    push_str(&mut v, " (");
    push_str(
        &mut v,
        if horizontal {
            "horizontally"
        } else {
            "vertically"
        },
    );
    push_str(&mut v, "). New node IDs: ");
    let mut words: Vec<Vec<char>> = Vec::new();
    let mut i: usize = 0;
    while i < ids.len()
        invariant
            i <= ids.len(),
            words.len() == i,
            forall|j: int| 0 <= j < i ==> (#[trigger] words@[j])@ == id_text(ids@[j]),
        decreases ids.len() - i,
    {
        let mut w: Vec<char> = Vec::new();
        push_id(&mut w, ids[i]);
        words.push(w);
        i += 1;
    }
    let list = crate::text::join_words(&words, ", ");
    assert(words@.map_values(|w: Vec<char>| w@) =~= id_texts(ids@));
    push_all(&mut v, &list);
    text_of(&v)
}


proof fn lemma_round_of(
    nodes: Seq<Node>,
    ids: Seq<u128>,
    offset: (Double, Double),
    layer: Option<u128>,
    c: nat,
    n: nat,
    i: int,
)
    requires
        0 <= i < n,
    ensures
        duplicate_round(nodes, ids, offset, layer, c, n).len() == n,
        ({
            let k = position_of(nodes, ids[i]);
            let d = duplicate_round(nodes, ids, offset, layer, c, n)[i];
            &&& d.source == k as usize
            &&& d.dx == f_mul(offset.0, whole(c))
            &&& d.dy == f_mul(offset.1, whole(c))
            &&& d.layer == (match layer {
                Some(l) => l,
                None => nodes[k].layer,
            })
        }),
    decreases n,
{
    if i < n - 1 {
        lemma_round_of(nodes, ids, offset, layer, c, (n - 1) as nat, i);
    } else if n > 1 {
        lemma_round_of(nodes, ids, offset, layer, c, (n - 1) as nat, 0);
    }
    assert(duplicate_round(nodes, ids, offset, layer, c, 0).len() == 0);
}

proof fn lemma_duplicate_at(
    nodes: Seq<Node>,
    ids: Seq<u128>,
    offset: (Double, Double),
    layer: Option<u128>,
    c: nat,
    round: nat,
    i: int,
)
    requires
        0 <= i < ids.len(),
        1 <= round <= c,
    ensures
        duplicates(nodes, ids, offset, layer, c).len() == c * ids.len(),
        duplicates(nodes, ids, offset, layer, c)[(round - 1) * ids.len() + i]
            == duplicate_round(nodes, ids, offset, layer, round, ids.len())[i],
    decreases c,
{
    let n = ids.len() as int;
    lemma_round_of(nodes, ids, offset, layer, c, ids.len(), i);
    let before = duplicates(nodes, ids, offset, layer, (c - 1) as nat);
    if c > 1 {
        lemma_duplicate_at(
            nodes,
            ids,
            offset,
            layer,
            (c - 1) as nat,
            if round < c {
                round
            } else {
                1
            },
            i,
        );
    }
    assert(before.len() == (c - 1) * n) by {
        if c == 1 {
            assert(0 * n == 0);
        }
    }
    assert(c * n == (c - 1) * n + n) by (nonlinear_arith);
    let at = (round - 1) * n + i;
    if round < c {
        assert(at < before.len()) by (nonlinear_arith)
            requires
                at == (round - 1) * n + i,
                i < n,
                round <= c - 1,
                before.len() == (c - 1) * n,
        ;
        assert(at >= 0) by (nonlinear_arith)
            requires
                at == (round - 1) * n + i,
                i >= 0,
                round >= 1,
                n >= 0,
        ;
    } else {
        assert(at - before.len() == i);
    }
}

/// Every round of duplicates has one copy of each node, on the node's own layer where no other
/// is given, and stands as far from the originals as its number says, across by the first
/// offset and down by the second.
pub proof fn law_duplicates_go_further(
    nodes: Seq<Node>,
    ids: Seq<u128>,
    offset: (Double, Double),
    layer: Option<u128>,
    c: nat,
    round: nat,
    i: int,
    j: nat,
)
    requires
        0 <= i < ids.len(),
        1 <= round <= c <= 100,
        is_plain(offset.0, j),
        is_plain(offset.1, j),
    ensures
        ({
            let d = duplicates(nodes, ids, offset, layer, c)[(round - 1) * ids.len() + i];
            let k = position_of(nodes, ids[i]);
            &&& duplicates(nodes, ids, offset, layer, c).len() == c * ids.len()
            &&& d.source == k as usize
            &&& exact(d.dx) == round * exact(offset.0)
            &&& exact(d.dy) == round * exact(offset.1)
            &&& layer is None ==> d.layer == nodes[k].layer
            &&& layer matches Some(l) ==> d.layer == l
        }),
{
    lemma_duplicate_at(nodes, ids, offset, layer, c, round, i);
    lemma_round_of(nodes, ids, offset, layer, round, ids.len(), i);
    lemma_plain(offset.0, j);
    lemma_plain(offset.1, j);
    lemma_times(round, offset.0, j, 0x4000_0000);
    lemma_times(round, offset.1, j, 0x4000_0000);
}

/// In a grid of copies the next one of a row stands a column to the right of the one before
/// it, at its height, and the one in the next row a row below it, straight under it. The
/// node itself is the first of the grid.
pub proof fn law_array_fills_rows(prefix: Seq<char>, args: ArrayArgs, n: nat, j: nat)
    requires
        args.mode == ArrayMode::Grid,
        is_plain(or_default(args.col_stride, whole(100)), j),
        is_plain(or_default(args.row_stride, whole(100)), j),
        n + at_least_one(args.cols, 2) <= 0x10_0000,
    ensures
        ({
            let cols = at_least_one(args.cols, 2);
            let a = array_copy(prefix, args, n).1;
            let right = array_copy(prefix, args, n + 1).1;
            let below = array_copy(prefix, args, n + cols).1;
            let col = exact(or_default(args.col_stride, whole(100)));
            let row = exact(or_default(args.row_stride, whole(100)));
            &&& a is Shift && right is Shift && below is Shift
            &&& n == 0 ==> exact(a->Shift_0) == 0 && exact(a->Shift_1) == 0
            &&& (n + 1) % cols != 0 ==> exact(right->Shift_0) == exact(a->Shift_0) + col
                && right->Shift_1 == a->Shift_1
            &&& below->Shift_0 == a->Shift_0 && exact(below->Shift_1) == exact(a->Shift_1) + row
        }),
{
    let cols = at_least_one(args.cols, 2);
    let x = or_default(args.col_stride, whole(100));
    let y = or_default(args.row_stride, whole(100));
    lemma_plain(x, j);
    lemma_plain(y, j);
    lemma_place_bounds(n, cols);
    lemma_place_bounds(n + 1, cols);
    lemma_place_bounds(n + cols, cols);
    lemma_next_row(n, cols);
    lemma_stride(n % cols, x, j);
    lemma_stride(n / cols, y, j);
    lemma_stride((n + cols) / cols, y, j);
    lemma_stride((n + 1) % cols, x, j);
    let c = exact(x);
    let r = exact(y);
    if n == 0 {
        assert(0 * c == 0 && 0 * r == 0);
    }
    let q = (n / cols) as int;
    assert((q + 1) * r == q * r + r) by (nonlinear_arith);
    if (n + 1) % cols != 0 {
        lemma_next_column(n, cols);
        let m = (n % cols) as int;
        assert((m + 1) * c == m * c + c) by (nonlinear_arith);
    }
}

proof fn lemma_stride(k: nat, x: Double, j: nat)
    requires
        k <= 0x10_0000,
        within(x, j, 0x4000_0000),
    ensures
        exact(f_mul(whole(k), x)) == k * exact(x),
{
    assert(k * 0x4000_0000 <= 0x10_0000 * 0x4000_0000) by (nonlinear_arith)
        requires
            k <= 0x10_0000,
    ;
    lemma_times(k, x, j, 0x4000_0000);
}

/// The copies of an array are numbered from 1 on, and there is one for each cell but the first.
pub proof fn law_array_has_all_cells(prefix: Seq<char>, args: ArrayArgs, len: nat, i: int)
    requires
        0 <= i < len,
    ensures
        array_copies(prefix, args, len).len() == len,
        array_copies(prefix, args, len)[i].0 == prefix + " "@ + decimal_text((i + 1) as nat),
        args.mode == ArrayMode::Grid ==> array_len(args) + 1 == at_least_one(args.rows, 2)
            * at_least_one(args.cols, 2),
{
    let a = at_least_one(args.rows, 2);
    let b = at_least_one(args.cols, 2);
    assert(a * b >= 1) by (nonlinear_arith)
        requires
            a >= 1,
            b >= 1,
    ;
}

/// The copies of a radial array share a turn evenly, from the angle that it starts at, about
/// the given centre: where the count divides 360, so many steps make a full turn.
pub proof fn law_radial_array_shares_the_turn(
    prefix: Seq<char>,
    args: ArrayArgs,
    n: nat,
    step: nat,
    j: nat,
)
    requires
        args.mode == ArrayMode::Radial,
        radial_count(args) > 0,
        radial_count(args) * step == 360,
        n <= radial_count(args),
        1066 <= j <= 1074,
        is_plain(or_default(args.start_angle_degrees, Double { bits: 0 }), j),
    ensures
        ({
            let e = array_copy(prefix, args, n).1;
            let from = exact(or_default(args.start_angle_degrees, Double { bits: 0 }));
            &&& e is Turn
            &&& exact(e->degrees) == from + n * (step * one_units())
            &&& n == radial_count(args) ==> exact(e->degrees) == from + 360 * one_units()
            &&& args.center_x matches Some(x) ==> e->center.x == x
            &&& args.center_y matches Some(y) ==> e->center.y == y
        }),
{
    let c = radial_count(args);
    let from = or_default(args.start_angle_degrees, Double { bits: 0 });
    assert(c <= 360 && step <= 360) by (nonlinear_arith)
        requires
            c * step == 360,
            c > 0,
    ;
    lemma_whole_within(360, j);
    lemma_whole_within(step, j);
    lemma_whole_share(c, step, j);
    let part = f_div(whole(360), whole(c));
    let most: int = 0x400 * (step as int);
    assert(n * most <= 360 * 0x6_0000) by (nonlinear_arith)
        requires
            n <= 360,
            0 <= most <= 0x6_0000,
    ;
    lemma_times(n, part, j, most);
    lemma_plain(from, j);
    lemma_add(from, f_mul(whole(n), part), j, 0x4000_0000, n * most);
    let u = one_units();
    if n == c {
        assert(c * (step * u) == (c * step) * u) by (nonlinear_arith);
    }
}

/// A full turn is shared evenly where the count divides it.
pub proof fn lemma_whole_share(c: nat, step: nat, j: nat)
    requires
        c > 0,
        c <= 360,
        step <= 360,
        c * step == 360,
        1066 <= j <= 1074,
    ensures
        within(f_div(whole(360), whole(c)), j, 0x400 * (step as int)),
        exact(f_div(whole(360), whole(c))) == step * one_units(),
{
    lemma_whole_within(360, j);
    lemma_whole_within(step, j);
    let m = steps(whole(step), j);
    let p = power(2, j);
    let u = one_units();
    let e = exact(whole(step));
    lemma_power_positive(2, j);
    assert(exact(whole(360)) == c * e) by (nonlinear_arith)
        requires
            exact(whole(360)) == 360 * u,
            e == step * u,
            c * step == 360,
    ;
    let cc = c as int;
    assert(cc * (m * p) == (cc * m) * p) by (nonlinear_arith);
    lemma_share_of_steps(whole(360), c, j, m);
    lemma_steps(f_div(whole(360), whole(c)), j, m);
}

/// A scattered copy lies in the area: across, where one random number puts it, from the left
/// edge for -1 to the right one for 1, and down, where the next one does.
pub proof fn law_scattered_copies_lie_in_the_area(
    name: Seq<char>,
    args: ScatterArgs,
    values: Seq<Double>,
    i: nat,
)
    requires
        args.x.wf(),
        args.y.wf(),
        args.width.wf(),
        args.height.wf(),
        args.width.key() >= 0,
        args.height.key() >= 0,
        is_random(values[(i * draws_per_copy(args)) as int]),
        is_random(values[(i * draws_per_copy(args)) as int + 1]),
    ensures
        ({
            let c = scattered_copy(name, args, values, i);
            &&& args.x.key() <= c.1.key() <= f_add(args.width, args.x).key()
            &&& args.y.key() <= c.2.key() <= f_add(args.height, args.y).key()
        }),
{
    let at = (i * draws_per_copy(args)) as int;
    lemma_spread_over(values[at], args.width, args.x);
    lemma_spread_over(values[at + 1], args.height, args.y);
}

/// A number from -1 to 1.
pub open spec fn is_random(v: Double) -> bool {
    v.wf() && v.magnitude() <= 0x3ff0_0000_0000_0000
}

proof fn lemma_spread_over(v: Double, size: Double, from: Double)
    requires
        is_random(v),
        size.wf(),
        from.wf(),
        size.key() >= 0,
    ensures
        from.key() <= spread_over(v, size, from).key() <= f_add(size, from).key(),
{
    let h = (Double { bits: HALF });
    let one = whole(1);
    lemma_one();
    lemma_neg(one);
    lemma_neg(h);
    lemma_product_keeps_order(v, one, h);
    lemma_product_keeps_order(f_neg(one), v, h);
    lemma_times_one(h);
    lemma_product_mirrors(one, h);
    let a = f_mul(v, h);
    lemma_product_value(v, h);
    assert(f_neg(h).key() <= a.key() <= h.key());
    assert(a.wf());
    lemma_sum_keeps_order(f_neg(h), a, h);
    lemma_sum_keeps_order(a, h, h);
    lemma_self_difference(h);
    lemma_sum_commutes(f_neg(h), h);
    let t = f_add(a, h);
    assert(f_add(h, h) == one) by {
        lemma_halves();
    }
    assert(0 <= t.key() <= one.key());
    lemma_sum_value(a, h);
    assert(t.wf());
    lemma_whole_zero();
    lemma_product_keeps_order(whole(0), t, size);
    lemma_product_keeps_order(t, one, size);
    lemma_times_one(size);
    lemma_times_nothing(size);
    let q = f_mul(t, size);
    lemma_product_value(t, size);
    assert(0 <= q.key() <= size.key());
    assert(q.wf());
    lemma_sum_keeps_order(q, size, from);
    lemma_sum_keeps_order(whole(0), q, from);
    lemma_plus_nothing(from, whole(0));
}

proof fn lemma_whole_zero()
    ensures
        whole(0) == (Double { bits: 0 }),
        whole(0).key() == 0,
{
    lemma_whole(0);
}

proof fn lemma_halves()
    ensures
        f_add(Double { bits: HALF }, Double { bits: HALF }) == whole(1),
{
    let h = (Double { bits: HALF });
    lemma_one();
    lemma_two_to(h, 1022);
    lemma_power_positive(2, 1074);
    assert(power(2, 1074) == 2 * power(2, 1073));
    reveal(f_add);
    lemma_value_stays(whole(1));
}

/// Across, a scattered copy depends on its own random number, the left edge and the width
/// alone; down, on the next number, the top and the height.
pub proof fn law_scattered_axes_are_apart(
    name: Seq<char>,
    a: ScatterArgs,
    b: ScatterArgs,
    v: Seq<Double>,
    w: Seq<Double>,
    i: nat,
)
    requires
        a.rotation_range == b.rotation_range,
        a.scale_range == b.scale_range,
    ensures
        ({
            let at = (i * draws_per_copy(a)) as int;
            &&& a.x == b.x && a.width == b.width && v[at] == w[at] ==> scattered_copy(
                name,
                a,
                v,
                i,
            ).1 == scattered_copy(name, b, w, i).1
            &&& a.y == b.y && a.height == b.height && v[at + 1] == w[at + 1] ==> scattered_copy(
                name,
                a,
                v,
                i,
            ).2 == scattered_copy(name, b, w, i).2
        }),
{
}

/// Doing one thing after another brings the origin of the second to where the first brings
/// the place that the second has, and each of its directions to where the first turns it.
pub proof fn law_composition_follows_points(a: Affine, b: Affine)
    ensures
        ({
            let c = composed(a, b);
            let p = mapped(a, Point { x: b.e, y: b.f });
            let linear = Affine { e: Double { bits: 0 }, f: Double { bits: 0 }, ..a };
            let across = mapped(linear, Point { x: b.a, y: b.b });
            let down = mapped(linear, Point { x: b.c, y: b.d });
            &&& c.e == p.x && c.f == p.y
            &&& across.x == f_add(c.a, Double { bits: 0 }) && across.y == f_add(
                c.b,
                Double { bits: 0 },
            )
            &&& down.x == f_add(c.c, Double { bits: 0 }) && down.y == f_add(
                c.d,
                Double { bits: 0 },
            )
        }),
{
}

/// Copies that are neither turned nor scaled keep the shape of the node and stand so many
/// steps from it, across by the first step and down by the second, as their number says.
pub proof fn law_stepped_copies_go_further(
    node: Node,
    args: TransformCopiesArgs,
    s: CopyStep,
    i: nat,
    j: nat,
)
    requires
        s.scale == whole(1),
        s.cosine == whole(1),
        s.sine == whole(0),
        i <= 0x1000,
        args.translate_x matches Some(x) && is_plain(x, j),
        args.translate_y matches Some(y) && is_plain(y, j),
        is_plain(node.transform.e, j),
        is_plain(node.transform.f, j),
        node.transform.a.wf(),
        node.transform.b.wf(),
        node.transform.c.wf(),
        node.transform.d.wf(),
    ensures
        ({
            let m = node.transform;
            let r = stepped_copy(node, args, s, i).1;
            &&& exact(r.e) == exact(m.e) + i * exact(args.translate_x->0)
            &&& exact(r.f) == exact(m.f) + i * exact(args.translate_y->0)
            &&& r.a.key() == m.a.key() && r.b.key() == m.b.key()
            &&& r.c.key() == m.c.key() && r.d.key() == m.d.key()
        }),
{
    let m = node.transform;
    let x = args.translate_x->0;
    let y = args.translate_y->0;
    let one = whole(1);
    let zero = whole(0);
    lemma_one();
    lemma_whole_zero();
    lemma_times_one(one);
    lemma_times_nothing(one);
    lemma_neg(one);
    lemma_times_nothing(f_neg(one));
    let t = turn_matrix(one, one, zero, f_mul(x, whole(i)), f_mul(y, whole(i)));
    assert(t.a == one && t.d == one);
    assert(t.b.key() == 0 && t.c.key() == 0);
    lemma_plain(x, j);
    lemma_plain(y, j);
    lemma_plain(m.e, j);
    lemma_plain(m.f, j);
    let kk = i as int;
    assert(kk * 0x4000_0000 <= 0x1000 * 0x4000_0000) by (nonlinear_arith)
        requires
            kk <= 0x1000,
    ;
    lemma_times(i, x, j, 0x4000_0000);
    lemma_times(i, y, j, 0x4000_0000);
    lemma_unit_row(t.a, t.c, m.a, m.b);
    lemma_unit_row(t.a, t.c, m.c, m.d);
    lemma_unit_row(t.a, t.c, m.e, m.f);
    lemma_unit_row(t.d, t.b, m.b, m.a);
    lemma_unit_row(t.d, t.b, m.d, m.c);
    lemma_unit_row(t.d, t.b, m.f, m.e);
    lemma_sum_commutes(f_mul(t.d, m.b), f_mul(t.b, m.a));
    lemma_sum_commutes(f_mul(t.d, m.d), f_mul(t.b, m.c));
    lemma_sum_commutes(f_mul(t.d, m.f), f_mul(t.b, m.e));
    let e = f_add(f_mul(t.a, m.e), f_mul(t.c, m.f));
    let f = f_add(f_mul(t.b, m.e), f_mul(t.d, m.f));
    lemma_same_value(e, m.e);
    lemma_same_value(f, m.f);
    lemma_steps(e, j, steps(m.e, j));
    lemma_steps(f, j, steps(m.f, j));
    lemma_add(e, t.e, j, 0x4000_0000, kk * 0x4000_0000);
    lemma_add(f, t.f, j, 0x4000_0000, kk * 0x4000_0000);
}

proof fn lemma_unit_row(one: Double, nothing: Double, a: Double, b: Double)
    requires
        one == whole(1),
        nothing.key() == 0,
        a.wf(),
        b.wf(),
    ensures
        f_add(f_mul(one, a), f_mul(nothing, b)).key() == a.key(),
{
    lemma_times_one(a);
    assert(f_mul(nothing, b).key() == 0) by {
        reveal(f_mul);
        lemma_zero_value(nothing);
        let x = exact(b);
        assert(0 * x == 0);
    }
    lemma_plus_nothing(a, f_mul(nothing, b));
}

/// The cells that a path is split into fill the rows one after the other: the next cell of a
/// row starts a gutter behind the end of the one before it, at its height, and the one in the
/// next row a gutter below its end, straight under it. The first starts at the corner of the
/// box.
pub proof fn law_cells_fill_rows(
    name: Seq<char>,
    b: Bounds,
    w: Double,
    h: Double,
    args: SplitArgs,
    i: nat,
    j: nat,
)
    requires
        args.cols > 0,
        i + args.cols <= 0x10_0000,
        is_plain(b.x0, j),
        is_plain(b.y0, j),
        is_plain(w, j),
        is_plain(h, j),
        is_plain(gutter(args.gutter_x), j),
        is_plain(gutter(args.gutter_y), j),
    ensures
        ({
            let a = grid_cell(name, b, w, h, args, i);
            let right = grid_cell(name, b, w, h, args, i + 1);
            let below = grid_cell(name, b, w, h, args, i + args.cols as nat);
            &&& i == 0 ==> exact(a.1) == exact(b.x0) && exact(a.2) == exact(b.y0)
            &&& (i + 1) % (args.cols as nat) != 0 ==> exact(right.1) == exact(a.1) + exact(w)
                + exact(gutter(args.gutter_x)) && right.2 == a.2
            &&& below.1 == a.1 && exact(below.2) == exact(a.2) + exact(h) + exact(
                gutter(args.gutter_y),
            )
        }),
{
    let cols = args.cols as nat;
    let gx = gutter(args.gutter_x);
    let gy = gutter(args.gutter_y);
    lemma_place_bounds(i, cols);
    lemma_place_bounds(i + 1, cols);
    lemma_place_bounds(i + cols, cols);
    lemma_next_row(i, cols);
    lemma_cell_start(b.x0, i % cols, w, gx, j);
    lemma_cell_start(b.y0, i / cols, h, gy, j);
    lemma_cell_start(b.y0, (i + cols) / cols, h, gy, j);
    lemma_cell_start(b.x0, (i + 1) % cols, w, gx, j);
    let x = exact(w) + exact(gx);
    let y = exact(h) + exact(gy);
    if i == 0 {
        assert(0 * x == 0 && 0 * y == 0);
    }
    let q = (i / cols) as int;
    assert((q + 1) * y == q * y + y) by (nonlinear_arith);
    if (i + 1) % cols != 0 {
        lemma_next_column(i, cols);
        let m = (i % cols) as int;
        assert((m + 1) * x == m * x + x) by (nonlinear_arith);
    }
}

/// The cells of a row and the gutters between them fill the box, wherever it divides evenly.
pub proof fn law_cells_fill_the_box(
    from: Double,
    to: Double,
    gutter: Double,
    n: nat,
    share: int,
    j: nat,
)
    requires
        0 < n <= 0x10_0000,
        is_plain(from, j),
        is_plain(to, j),
        is_plain(gutter, j),
        -0x4000_0000 <= share <= 0x4000_0000,
        exact(to) - exact(from) - (n - 1) * exact(gutter) == n * (share * power(2, j)),
    ensures
        n * exact(cell_size(from, to, gutter, n)) + (n - 1) * exact(gutter) == exact(to) - exact(
            from,
        ),
{
    lemma_plain(from, j);
    lemma_plain(to, j);
    lemma_plain(gutter, j);
    lemma_one();
    lemma_whole_difference(n, 1);
    let k = (n - 1) as nat;
    let kk = k as int;
    assert(kk * 0x4000_0000 <= 0x10_0000 * 0x4000_0000) by (nonlinear_arith)
        requires
            kk <= 0x10_0000,
    ;
    lemma_times(k, gutter, j, 0x4000_0000);
    lemma_sub(to, from, j, 0x4000_0000, 0x4000_0000);
    let d = f_sub(to, from);
    let g = f_mul(gutter, whole(k));
    lemma_sub(d, g, j, 0x8000_0000, kk * 0x4000_0000);
    let p = power(2, j);
    lemma_power_positive(2, j);
    let v = steps(f_sub(d, g), j);
    let nn = n as int;
    assert(v == nn * share) by (nonlinear_arith)
        requires
            v * p == nn * (share * p),
            p > 0,
    ;
    lemma_share_of_steps(f_sub(d, g), n, j, share);
}

/// A copy on a path stands at its point of the path, from where the node stood, and is of one
/// node after the other, over again from the first. It is turned only where that is asked
/// for: in the direction of the path, so that straight ahead leaves it as it is and a quarter
/// turn makes the direction across of it the one down.
pub proof fn law_copies_follow_the_path(
    nodes: Seq<Node>,
    ids: Seq<u128>,
    s: PathSample,
    align: bool,
    k: int,
    j: nat,
)
    requires
        0 <= k,
        ids.len() > 0,
        ({
            let m = nodes[position_of(nodes, ids[k % ids.len() as int])].transform;
            &&& is_plain(m.e, j) && is_plain(m.f, j) && is_plain(s.x, j) && is_plain(s.y, j)
            &&& m.a.wf() && m.b.wf() && m.c.wf() && m.d.wf()
        }),
    ensures
        ({
            let at = position_of(nodes, ids[k % ids.len() as int]);
            let m = nodes[at].transform;
            let c = path_copy(nodes, ids, s, align, k);
            &&& c.0 == at as usize
            &&& exact(c.2.e) == exact(s.x) + exact(m.e)
            &&& exact(c.2.f) == exact(s.y) + exact(m.f)
            &&& !align ==> c.2.a == m.a && c.2.b == m.b && c.2.c == m.c && c.2.d == m.d
            &&& align && s.cosine == whole(1) && s.sine == whole(0) ==> c.2.a.key() == m.a.key()
                && c.2.b.key() == m.b.key() && c.2.c.key() == m.c.key() && c.2.d.key()
                == m.d.key()
            &&& align && s.cosine == whole(0) && s.sine == whole(1) ==> c.2.a.key() == m.c.key()
                && c.2.b.key() == m.d.key() && c.2.c.key() == -m.a.key() && c.2.d.key()
                == -m.b.key()
        }),
{
    let at = position_of(nodes, ids[k % ids.len() as int]);
    let m = nodes[at].transform;
    lemma_plain(m.e, j);
    lemma_plain(m.f, j);
    lemma_plain(s.x, j);
    lemma_plain(s.y, j);
    lemma_add(s.x, m.e, j, 0x4000_0000, 0x4000_0000);
    lemma_add(s.y, m.f, j, 0x4000_0000, 0x4000_0000);
    lemma_whole_zero();
    lemma_neg(m.a);
    lemma_neg(m.b);
    lemma_turned_row(m.a, m.c);
    lemma_turned_row(m.b, m.d);
    lemma_turned_row(f_neg(m.a), m.c);
    lemma_turned_row(f_neg(m.b), m.d);
}

proof fn lemma_turned_row(a: Double, b: Double)
    requires
        a.wf(),
        b.wf(),
    ensures
        f_add(f_mul(a, whole(1)), f_mul(b, whole(0))).key() == a.key(),
        f_add(f_mul(a, whole(0)), f_mul(b, whole(1))).key() == b.key(),
{
    lemma_times_one(a);
    lemma_times_one(b);
    lemma_times_nothing(a);
    lemma_times_nothing(b);
    lemma_plus_nothing(a, f_mul(b, whole(0)));
    lemma_plus_nothing(b, f_mul(a, whole(0)));
}

/// Where a centre is given, copies are turned about it; without one they are turned about the
/// middle of the node's box, which depends across on nothing that is down where the node is
/// not turned.
pub proof fn law_turns_go_about_the_centre(
    node: Node,
    cx: Option<Double>,
    cy: Option<Double>,
    j: nat,
)
    requires
        node.transform.a == whole(1),
        node.transform.d == whole(1),
        node.transform.b == whole(0),
        node.transform.c == whole(0),
        is_plain(node.transform.e, j),
        is_plain(node.transform.f, j),
        node.bounds matches Some(b) && is_plain(b.x0, j) && is_plain(b.x1, j) && is_plain(b.y0, j)
            && is_plain(b.y1, j),
    ensures
        ({
            let p = turn_center(node, cx, cy);
            let b = node.bounds->0;
            let m = node.transform;
            &&& cx is Some && cy is Some ==> p.x == cx->0 && p.y == cy->0
            &&& !(cx is Some && cy is Some) ==> 2 * exact(p.x) == exact(b.x0) + exact(b.x1) + 2
                * exact(m.e) && 2 * exact(p.y) == exact(b.y0) + exact(b.y1) + 2 * exact(m.f)
        }),
{
    let m = node.transform;
    let b = node.bounds->0;
    lemma_whole_zero();
    lemma_moved_axis(m.a, m.c, b.x0, b.y0, m.e, j);
    lemma_moved_axis(m.a, m.c, b.x1, b.y1, m.e, j);
    lemma_moved_axis(m.d, m.b, b.y0, b.x0, m.f, j);
    lemma_moved_axis(m.d, m.b, b.y1, b.x1, m.f, j);
    lemma_sum_commutes(f_mul(m.d, b.y0), f_mul(m.b, b.x0));
    lemma_sum_commutes(f_mul(m.d, b.y1), f_mul(m.b, b.x1));
    let p = mapped(m, Point { x: b.x0, y: b.y0 });
    let q = mapped(m, Point { x: b.x1, y: b.y1 });
    lemma_add(p.x, q.x, j, 0x8000_0000, 0x8000_0000);
    lemma_add(p.y, q.y, j, 0x8000_0000, 0x8000_0000);
    lemma_half(f_add(p.x, q.x), j, 0x1_0000_0000);
    lemma_half(f_add(p.y, q.y), j, 0x1_0000_0000);
}

/// Where nothing is turned or scaled, a coordinate is only moved.
pub proof fn lemma_moved_axis(one: Double, nothing: Double, a: Double, b: Double, e: Double, j: nat)
    requires
        one == whole(1),
        nothing.key() == 0,
        is_plain(a, j),
        is_plain(b, j),
        is_plain(e, j),
    ensures
        ({
            let r = f_add(f_add(f_mul(one, a), f_mul(nothing, b)), e);
            within(r, j, 0x8000_0000) && exact(r) == exact(a) + exact(e)
        }),
{
    lemma_unit_row(one, nothing, a, b);
    lemma_plain(a, j);
    lemma_plain(e, j);
    let r = f_add(f_mul(one, a), f_mul(nothing, b));
    lemma_same_value(r, a);
    lemma_steps(r, j, steps(a, j));
    lemma_add(r, e, j, 0x4000_0000, 0x4000_0000);
}


/// A mirrored copy is of its node, on its layer, and mirrored about one axis alone: left to
/// right, or top to bottom.
pub proof fn law_mirrored_copies_are_flipped_once(
    nodes: Seq<Node>,
    paths: Seq<Vec<PathEl>>,
    k: usize,
    horizontal: bool,
)
    requires
        nodes[k as int].kind != NodeKind::Path,
        nodes[k as int].transform.a.wf(),
        nodes[k as int].transform.b.wf(),
        nodes[k as int].transform.c.wf(),
        nodes[k as int].transform.d.wf(),
        nodes[k as int].transform.e.wf(),
        nodes[k as int].transform.f.wf(),
    ensures
        ({
            let c = mirrored_copy(nodes, paths, k, horizontal);
            let m = nodes[k as int].transform;
            &&& c.0 == k
            &&& c.2 == nodes[k as int].layer
            &&& c.3 is Matrix
            &&& c.3->Matrix_0.e == m.e && c.3->Matrix_0.f == m.f
            &&& horizontal ==> c.3->Matrix_0.b == m.b && c.3->Matrix_0.d == m.d
            &&& horizontal ==> c.3->Matrix_0.a.key() == -m.a.key()
            &&& !horizontal ==> c.3->Matrix_0.a == m.a && c.3->Matrix_0.c == m.c
            &&& !horizontal ==> c.3->Matrix_0.d.key() == -m.d.key()
        }),
{
    let m = nodes[k as int].transform;
    crate::transform::law_flipped_matrix_keeps_its_place(m, horizontal, !horizontal);
    lemma_neg(m.a);
    lemma_neg(m.d);
}

} // verus!
