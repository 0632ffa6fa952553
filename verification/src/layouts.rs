//! Arranging the children of a group, and the order of nodes in a layer.
use crate::arrange::{given_or_default, or_default};
use crate::bezier::ONE;
use crate::double::Double;
use crate::float::{
    absolute, exact, f_abs, f_add, f_less, f_max, f_min, f_mul, f_sub, from_count, half, halved,
    maximum, minimum, minus, plus, times, whole,
};
use crate::order::{comes_first, law_sorted, sort_indices, sorted_indices};
use crate::scene::{
    around_id, find_node, has_node, id_text, position_of, push_id, resolve_node_id, Node, NodeKind,
};
use crate::steps::{
    is_plain, lemma_add, lemma_cell_start, lemma_half, lemma_next_column, lemma_next_row, lemma_one,
    lemma_order, lemma_place_bounds, lemma_plain, lemma_sub,
};
use crate::text::{chars_of, decimal_text, number_text, push_all, push_str, same_text, text_of};
use crate::typography::{is_target, quoted_name, quoted_text, target};
use vstd::prelude::*;

verus! {

/// How a node is moved in the order of its layer.
#[derive(Debug, Clone, Copy, PartialEq, Eq, Structural)]
pub enum ReorderOperation {
    SendToBack,
    BringToFront,
    SendBackward,
    BringForward,
    MoveAbove,
    MoveBelow,
}

/// Where a node stands: its layer and its place in the layer.
#[derive(Debug, Clone, Copy, PartialEq, Eq, Structural)]
pub struct Place {
    pub layer: u128,
    pub index: usize,
}

/// A node that another is moved above or below, with its place where it has one.
#[derive(Debug, Clone, Copy, PartialEq, Eq, Structural)]
pub struct Relative {
    pub id: u128,
    pub place: Option<Place>,
}

/// A node's new place in its layer.
#[derive(Debug)]
pub struct Reordering {
    pub layer: u128,
    pub old_index: usize,
    pub new_index: usize,
    pub message: String,
}

pub open spec fn is_relative(operation: ReorderOperation) -> bool {
    operation == ReorderOperation::MoveAbove || operation == ReorderOperation::MoveBelow
}

/// Why a node is not moved.
pub open spec fn reorder_error(
    id: u128,
    place: Option<Place>,
    layer_len: usize,
    operation: ReorderOperation,
    relative: Option<Relative>,
) -> Option<Seq<char>> {
    match place {
        None => Some("Node "@ + id_text(id) + " not found"@),
        Some(p) => if layer_len == 0 {
            Some("Layer is empty"@)
        } else if is_relative(operation) {
            match relative {
                None => Some("relative_id is required for move_above / move_below"@),
                Some(r) => match r.place {
                    None => Some("Relative node "@ + id_text(r.id) + " not found"@),
                    Some(q) => if q.layer != p.layer {
                        Some("Nodes must be in the same layer"@)
                    } else {
                        None
                    },
                },
            }
        } else {
            None
        },
    }
}

pub open spec fn at_most_index(a: int, b: int) -> int {
    if a <= b {
        a
    } else {
        b
    }
}

/// The place of the other node once the moved node is taken out.
pub open spec fn place_without(current: int, other: int) -> int {
    if current < other {
        other - 1
    } else {
        other
    }
}

/// The new place of a node, in the layer without it.
pub open spec fn new_place(
    current: int,
    layer_len: int,
    operation: ReorderOperation,
    other: int,
) -> int {
    match operation {
        ReorderOperation::SendToBack => 0,
        ReorderOperation::BringToFront => layer_len - 1,
        ReorderOperation::SendBackward => if current > 0 {
            current - 1
        } else {
            0
        },
        ReorderOperation::BringForward => at_most_index(current + 1, layer_len - 1),
        ReorderOperation::MoveAbove => at_most_index(
            place_without(current, other) + 1,
            layer_len - 1,
        ),
        ReorderOperation::MoveBelow => place_without(current, other),
    }
}

/// A layer after a node was moved.
pub open spec fn reordered(layer: Seq<u128>, from: int, to: int) -> Seq<u128> {
    layer.remove(from).insert(to, layer[from])
}

/// Moves a node in the order of its layer.
pub fn reorder_node(
    id: u128,
    place: Option<Place>,
    layer_len: usize,
    operation: ReorderOperation,
    relative: Option<Relative>,
) -> (r: Result<Reordering, String>)
    ensures
        match r {
            Err(e) => reorder_error(id, place, layer_len, operation, relative) == Some(e@),
            Ok(m) => {
                &&& reorder_error(id, place, layer_len, operation, relative) is None
                &&& place == Some(Place { layer: m.layer, index: m.old_index })
                &&& m.new_index == new_place(
                    m.old_index as int,
                    layer_len as int,
                    operation,
                    if is_relative(operation) {
                        relative->0.place->0.index as int
                    } else {
                        0
                    },
                )
                &&& m.message@ == "Reordered node "@ + id_text(id) + " from z-index "@
                    + decimal_text(m.old_index as nat) + " to "@ + decimal_text(m.new_index as nat)
            },
        },
{
    let p = match place {
        None => {
            return Err(around_id("Node ", id, " not found"));
        },
        Some(p) => p,
    };
    if layer_len == 0 {
        return Err("Layer is empty".to_owned());
    }
    let current: usize = p.index;
    let new_index: usize = match operation {
        ReorderOperation::SendToBack => 0,
        ReorderOperation::BringToFront => layer_len - 1,
        ReorderOperation::SendBackward => if current > 0 {
            current - 1
        } else {
            0
        },
        ReorderOperation::BringForward => if current < layer_len - 1 {
            current + 1
        } else {
            layer_len - 1
        },
        _ => {
            let other = match relative {
                None => {
                    return Err("relative_id is required for move_above / move_below".to_owned());
                },
                Some(r) => match r.place {
                    None => {
                        return Err(around_id("Relative node ", r.id, " not found"));
                    },
                    Some(q) => q,
                },
            };
            if other.layer != p.layer {
                return Err("Nodes must be in the same layer".to_owned());
            }
            let at: usize = if current < other.index {
                other.index - 1
            } else {
                other.index
            };
            if operation == ReorderOperation::MoveBelow {
                at
            } else if at < layer_len - 1 {
                at + 1
            } else {
                layer_len - 1
            }
        },
    };
    let mut v = chars_of("Reordered node ");
    push_id(&mut v, id);
    push_str(&mut v, " from z-index ");
    push_all(&mut v, &number_text(current as u64));
    push_str(&mut v, " to ");
    push_all(&mut v, &number_text(new_index as u64));
    Ok(Reordering { layer: p.layer, old_index: current, new_index, message: text_of(&v) })
}

/// A node stays in its layer when it is moved, and the other nodes keep their
/// order.
pub proof fn law_reorder_keeps_others(
    layer: Seq<u128>,
    current: int,
    operation: ReorderOperation,
    other: int,
)
    requires
        0 <= current < layer.len(),
        0 <= other < layer.len(),
    ensures
        ({
            let to = new_place(current, layer.len() as int, operation, other);
            let after = reordered(layer, current, to);
            &&& 0 <= to < layer.len()
            &&& after.len() == layer.len()
            &&& after[to] == layer[current]
            &&& after.remove(to) =~= layer.remove(current)
        }),
{
    let to = new_place(current, layer.len() as int, operation, other);
    let rest = layer.remove(current);
    assert(rest.insert(to, layer[current]).remove(to) =~= rest);
}

/// A node that is moved above another stands directly above it, one that is moved
/// below directly below it.
pub proof fn law_relative_neighbours(layer: Seq<u128>, current: int, other: int)
    requires
        0 <= current < layer.len(),
        0 <= other < layer.len(),
        current != other,
    ensures
        ({
            let above = new_place(
                current,
                layer.len() as int,
                ReorderOperation::MoveAbove,
                other,
            );
            let below = new_place(
                current,
                layer.len() as int,
                ReorderOperation::MoveBelow,
                other,
            );
            &&& reordered(layer, current, above)[above - 1] == layer[other]
            &&& reordered(layer, current, below)[below + 1] == layer[other]
        }),
{
}

/// A node that is laid out, with its place and its size.
#[derive(Debug, Clone, Copy, PartialEq, Eq, Structural)]
pub struct Child {
    pub position: usize,
    pub tx: Double,
    pub ty: Double,
    pub w: Double,
    pub h: Double,
}

/// A node and the place that it is put at.
#[derive(Debug, Clone, Copy, PartialEq, Eq, Structural)]
pub struct Placed {
    pub position: usize,
    pub tx: Double,
    pub ty: Double,
}

/// Where the children of a group go. Where nothing is arranged, a note says why.
#[derive(Debug)]
pub struct Placement {
    pub placed: Vec<Placed>,
    /// How many entries this adds to the history.
    pub entries: usize,
    pub note: Option<String>,
}

/// The size that a node is laid out with: a path has that of its box, at least 1;
/// everything else a fixed one.
pub open spec fn layout_size(node: Node) -> (Double, Double) {
    match node.bounds {
        Some(b) => if node.kind == NodeKind::Path {
            (
                f_max(f_abs(f_sub(b.x1, b.x0)), (Double { bits: ONE })),
                f_max(f_abs(f_sub(b.y1, b.y0)), (Double { bits: ONE })),
            )
        } else {
            (whole(60), whole(30))
        },
        None => (whole(60), whole(30)),
    }
}

fn size_of_node(node: &Node) -> (r: (Double, Double))
    ensures
        r == layout_size(*node),
{
    match &node.bounds {
        Some(b) => if node.kind == NodeKind::Path {
            (
                maximum(absolute(minus(b.x1, b.x0)), (Double { bits: ONE })),
                maximum(absolute(minus(b.y1, b.y0)), (Double { bits: ONE })),
            )
        } else {
            (from_count(60), from_count(30))
        },
        None => (from_count(60), from_count(30)),
    }
}

pub open spec fn child_at(nodes: Seq<Node>, k: int) -> Child {
    let size = layout_size(nodes[k]);
    Child {
        position: k as usize,
        tx: nodes[k].transform.e,
        ty: nodes[k].transform.f,
        w: size.0,
        h: size.1,
    }
}

/// The children that exist.
pub open spec fn children_of(nodes: Seq<Node>, ids: Seq<u128>) -> Seq<Child>
    decreases ids.len(),
{
    if ids.len() == 0 {
        Seq::empty()
    } else {
        let before = children_of(nodes, ids.drop_last());
        if has_node(nodes, ids.last()) {
            before.push(child_at(nodes, position_of(nodes, ids.last())))
        } else {
            before
        }
    }
}

fn find_children(nodes: &Vec<Node>, ids: &Vec<u128>) -> (r: Vec<Child>)
    ensures
        r@ == children_of(nodes@, ids@),
{
    let mut out: Vec<Child> = Vec::new();
    let mut i: usize = 0;
    assert(ids@.take(0) =~= Seq::<u128>::empty());
    while i < ids.len()
        invariant
            i <= ids.len(),
            out@ == children_of(nodes@, ids@.take(i as int)),
        decreases ids.len() - i,
    {
        proof {
            assert(ids@.take(i + 1).drop_last() =~= ids@.take(i as int));
            assert(ids@.take(i + 1).last() == ids@[i as int]);
        }
        if let Some(k) = find_node(nodes, ids[i]) {
            let size = size_of_node(&nodes[k]);
            let m = &nodes[k].transform;
            out.push(Child { position: k, tx: m.e, ty: m.f, w: size.0, h: size.1 });
        }
        i += 1;
    }
    assert(ids@.take(ids@.len() as int) =~= ids@);
    out
}

/// Why a group is not arranged.
pub open spec fn group_error(nodes: Seq<Node>, name: Seq<char>) -> Option<Seq<char>> {
    if !is_target(nodes, name) {
        Some(quoted_name("Node"@, name, " not found."@))
    } else if nodes[target(nodes, name)].kind != NodeKind::Group {
        Some("Target node is not a group."@)
    } else {
        None
    }
}

/// Finds the group that `name` stands for.
fn find_group(nodes: &Vec<Node>, name: &str) -> (r: Result<usize, String>)
    ensures
        match r {
            Ok(k) => group_error(nodes@, name@) is None && k == target(nodes@, name@) && k
                < nodes.len(),
            Err(e) => group_error(nodes@, name@) == Some(e@),
        },
{
    match resolve_node_id(nodes, name) {
        None => Err(quoted_text("Node", name, " not found.")),
        Some(id) => match find_node(nodes, id) {
            None => Err(quoted_text("Node", name, " not found.")),
            Some(k) => if nodes[k].kind == NodeKind::Group {
                Ok(k)
            } else {
                Err("Target node is not a group.".to_owned())
            },
        },
    }
}

/// How the children stand across the direction of a row or a column.
pub open spec fn cross_offset(align: Seq<char>, padding: Double, room: Double, size: Double) -> Double {
    if align == "start"@ {
        padding
    } else if align == "end"@ {
        f_sub(f_add(padding, room), size)
    } else {
        f_add(padding, half(f_sub(room, size)))
    }
}

pub open spec fn main_size(c: Child, column: bool) -> Double {
    if column {
        c.h
    } else {
        c.w
    }
}

pub open spec fn cross_size(c: Child, column: bool) -> Double {
    if column {
        c.w
    } else {
        c.h
    }
}

/// The largest size across the direction, of the first `n` children.
pub open spec fn cross_room(children: Seq<Child>, column: bool, n: nat) -> Double
    decreases n,
{
    if n == 0 {
        Double { bits: 0 }
    } else {
        f_max(
            cross_room(children, column, (n - 1) as nat),
            cross_size(children[n - 1], column),
        )
    }
}

/// The places along the axis, which the children are ordered by.
pub open spec fn axis_keys(children: Seq<Child>, column: bool) -> Seq<Double> {
    Seq::new(
        children.len(),
        |i: int|
            if column {
                children[i].ty
            } else {
                children[i].tx
            },
    )
}

/// The children in the order of their places along the axis.
pub open spec fn in_line(children: Seq<Child>, column: bool) -> Seq<Child> {
    let order = sorted_indices(axis_keys(children, column), children.len());
    Seq::new(children.len(), |i: int| children[order[i] as int])
}

/// Where child `i` of the line starts: behind the ones before it, a gap apart.
pub open spec fn line_start(
    line: Seq<Child>,
    column: bool,
    gap: Double,
    padding: Double,
    i: nat,
) -> Double
    decreases i,
{
    if i == 0 {
        padding
    } else {
        f_add(
            line_start(line, column, gap, padding, (i - 1) as nat),
            f_add(main_size(line[i - 1], column), gap),
        )
    }
}

/// How a row or a column of children is laid out.
#[derive(Debug)]
pub struct FlexArgs {
    pub direction: Option<String>,
    pub gap: Option<Double>,
    pub align: Option<String>,
    pub padding: Option<Double>,
}

pub open spec fn is_column(args: FlexArgs) -> bool {
    match args.direction {
        Some(d) => d@ == "column"@,
        None => false,
    }
}

pub open spec fn flex_align(args: FlexArgs) -> Seq<char> {
    match args.align {
        Some(a) => a@,
        None => "center"@,
    }
}

/// The place of child `i` of the line.
pub open spec fn flex_place(line: Seq<Child>, args: FlexArgs, i: int) -> Placed {
    let column = is_column(args);
    let padding = or_default(args.padding, Double { bits: 0 });
    let along = line_start(line, column, or_default(args.gap, whole(8)), padding, i as nat);
    let across = cross_offset(
        flex_align(args),
        padding,
        cross_room(line, column, line.len()),
        cross_size(line[i], column),
    );
    if column {
        Placed { position: line[i].position, tx: across, ty: along }
    } else {
        Placed { position: line[i].position, tx: along, ty: across }
    }
}

/// The places of all children of the line.
pub open spec fn flex_places(line: Seq<Child>, args: FlexArgs) -> Seq<Placed> {
    Seq::new(line.len(), |i: int| flex_place(line, args, i))
}

/// Why nothing is arranged in a group that exists.
pub open spec fn idle_note(
    ids: Seq<u128>,
    children: Seq<Child>,
    nothing: Seq<char>,
) -> Option<Seq<char>> {
    if ids.len() == 0 {
        Some(nothing)
    } else if children.len() == 0 {
        Some("No accessible children found."@)
    } else {
        None
    }
}

pub open spec fn note_view(note: Option<String>) -> Option<Seq<char>> {
    match note {
        Some(s) => Some(s@),
        None => None,
    }
}

fn line_of(children: &Vec<Child>, column: bool) -> (r: Vec<Child>)
    ensures
        r@ == in_line(children@, column),
{
    let mut keys: Vec<Double> = Vec::new();
    let mut i: usize = 0;
    while i < children.len()
        invariant
            i <= children.len(),
            keys@ == axis_keys(children@, column).take(i as int),
        decreases children.len() - i,
    {
        keys.push(
            if column {
                children[i].ty
            } else {
                children[i].tx
            },
        );
        i += 1;
        assert(keys@ =~= axis_keys(children@, column).take(i as int));
    }
    assert(keys@ =~= axis_keys(children@, column));
    let order = sort_indices(&keys);
    let mut line: Vec<Child> = Vec::new();
    let mut j: usize = 0;
    while j < order.len()
        invariant
            j <= order.len(),
            order.len() == children.len(),
            forall|i: int| 0 <= i < order.len() ==> (#[trigger] order@[i]) < children.len(),
            order@ == sorted_indices(axis_keys(children@, column), children@.len()),
            line@ == in_line(children@, column).take(j as int),
        decreases order.len() - j,
    {
        let k: usize = order[j];
        line.push(children[k]);
        j += 1;
        assert(line@ =~= in_line(children@, column).take(j as int));
    }
    assert(line@ =~= in_line(children@, column));
    line
}

fn cross_of(align: &str, padding: Double, room: Double, size: Double) -> (r: Double)
    ensures
        r == cross_offset(align@, padding, room, size),
{
    if same_text(align, "start") {
        padding
    } else if same_text(align, "end") {
        minus(plus(padding, room), size)
    } else {
        plus(padding, halved(minus(room, size)))
    }
}

/// Lays the children of a group out in a row or a column.
pub fn apply_flex_layout(nodes: &Vec<Node>, group: &str, args: &FlexArgs) -> (r: Result<
    Placement,
    String,
>)
    ensures
        match r {
            Err(e) => group_error(nodes@, group@) == Some(e@),
            Ok(p) => {
                let ids = nodes@[target(nodes@, group@)].children@;
                let children = children_of(nodes@, ids);
                &&& group_error(nodes@, group@) is None
                &&& note_view(p.note) == idle_note(
                    ids,
                    children,
                    "Group has no children — nothing to layout."@,
                )
                &&& p.placed@ == flex_places(in_line(children, is_column(*args)), *args)
                &&& p.entries == if p.note is None {
                    1int
                } else {
                    0
                }
            },
        },
{
    let k: usize = match find_group(nodes, group) {
        Err(e) => {
            return Err(e);
        },
        Ok(k) => k,
    };
    let children = find_children(nodes, &nodes[k].children);
    let column = match &args.direction {
        Some(d) => same_text(d.as_str(), "column"),
        None => false,
    };
    let align: &str = match &args.align {
        Some(a) => a.as_str(),
        None => "center",
    };
    let gap = given_or_default(args.gap, from_count(8));
    let padding = given_or_default(args.padding, Double { bits: 0 });
    let line = line_of(&children, column);
    let n: usize = line.len();
    let mut room = Double { bits: 0 };
    let mut i: usize = 0;
    while i < n
        invariant
            i <= n,
            n == line.len(),
            room == cross_room(line@, column, i as nat),
        decreases n - i,
    {
        room = maximum(
            room,
            if column {
                line[i].w
            } else {
                line[i].h
            },
        );
        i += 1;
    }
    let mut placed: Vec<Placed> = Vec::new();
    let mut cursor = padding;
    let mut j: usize = 0;
    while j < n
        invariant
            j <= n,
            n == line.len(),
            column == is_column(*args),
            align@ == flex_align(*args),
            gap == or_default(args.gap, whole(8)),
            padding == or_default(args.padding, Double { bits: 0 }),
            room == cross_room(line@, column, line@.len()),
            cursor == line_start(line@, column, gap, padding, j as nat),
            placed@ == flex_places(line@, *args).take(j as int),
        decreases n - j,
    {
        let c = line[j];
        if column {
            placed.push(
                Placed {
                    position: c.position,
                    tx: cross_of(align, padding, room, c.w),
                    ty: cursor,
                },
            );
            cursor = plus(cursor, plus(c.h, gap));
        } else {
            placed.push(
                Placed {
                    position: c.position,
                    tx: cursor,
                    ty: cross_of(align, padding, room, c.h),
                },
            );
            cursor = plus(cursor, plus(c.w, gap));
        }
        j += 1;
        assert(placed@ =~= flex_places(line@, *args).take(j as int));
    }
    assert(placed@ =~= flex_places(line@, *args));
    assert(line@.len() == children@.len());
    let note = if nodes[k].children.len() == 0 {
        Some("Group has no children — nothing to layout.".to_owned())
    } else if n == 0 {
        Some("No accessible children found.".to_owned())
    } else {
        None
    };
    let entries: usize = if note.is_none() {
        1
    } else {
        0
    };
    Ok(Placement { placed, entries, note })
}

/// The bits of the largest finite number.
pub const LARGEST: u64 = 0x7fef_ffff_ffff_ffff;

/// The bits of the smallest finite number.
pub const SMALLEST: u64 = 0xffef_ffff_ffff_ffff;

/// What the first `n` children span: left, top, right, bottom.
pub open spec fn child_span(children: Seq<Child>, n: nat) -> (Double, Double, Double, Double)
    decreases n,
{
    if n == 0 {
        (
            Double { bits: LARGEST },
            Double { bits: LARGEST },
            Double { bits: SMALLEST },
            Double { bits: SMALLEST },
        )
    } else {
        let s = child_span(children, (n - 1) as nat);
        let c = children[n - 1];
        (
            f_min(s.0, c.tx),
            f_min(s.1, c.ty),
            f_max(s.2, f_add(c.tx, c.w)),
            f_max(s.3, f_add(c.ty, c.h)),
        )
    }
}

/// Where a child of the size `size` is put in the room from `from` on: at the near
/// side, the far side, or in the middle.
pub open spec fn anchored(
    word: Seq<char>,
    near: Seq<char>,
    far: Seq<char>,
    from: Double,
    room: Double,
    size: Double,
) -> Double {
    if word == near {
        from
    } else if word == far {
        f_sub(f_add(from, room), size)
    } else {
        f_add(from, half(f_sub(room, size)))
    }
}

fn anchor_at(word: &str, near: &str, far: &str, from: Double, room: Double, size: Double) -> (r:
    Double)
    ensures
        r == anchored(word@, near@, far@, from, room, size),
{
    if same_text(word, near) {
        from
    } else if same_text(word, far) {
        minus(plus(from, room), size)
    } else {
        plus(from, halved(minus(room, size)))
    }
}

pub open spec fn word_or_center(word: Option<String>) -> Seq<char> {
    match word {
        Some(w) => w@,
        None => "center"@,
    }
}

/// The places of children that are stacked on one another.
pub open spec fn stack_places(
    children: Seq<Child>,
    align_h: Seq<char>,
    align_v: Seq<char>,
) -> Seq<Placed> {
    let s = child_span(children, children.len());
    let w = f_max(f_sub(s.2, s.0), (Double { bits: ONE }));
    let h = f_max(f_sub(s.3, s.1), (Double { bits: ONE }));
    Seq::new(
        children.len(),
        |i: int|
            Placed {
                position: children[i].position,
                tx: anchored(align_h, "left"@, "right"@, s.0, w, children[i].w),
                ty: anchored(align_v, "top"@, "bottom"@, s.1, h, children[i].h),
            },
    )
}

/// Stacks the children of a group on one another, aligned to what they span.
pub fn apply_stack_layout(
    nodes: &Vec<Node>,
    group: &str,
    align_h: &Option<String>,
    align_v: &Option<String>,
) -> (r: Result<Placement, String>)
    ensures
        match r {
            Err(e) => group_error(nodes@, group@) == Some(e@),
            Ok(p) => {
                let ids = nodes@[target(nodes@, group@)].children@;
                let children = children_of(nodes@, ids);
                &&& group_error(nodes@, group@) is None
                &&& note_view(p.note) == idle_note(
                    ids,
                    children,
                    "Group has no children — nothing to stack."@,
                )
                &&& p.placed@ == stack_places(
                    children,
                    word_or_center(*align_h),
                    word_or_center(*align_v),
                )
                &&& p.entries == p.placed@.len()
            },
        },
{
    let k: usize = match find_group(nodes, group) {
        Err(e) => {
            return Err(e);
        },
        Ok(k) => k,
    };
    let children = find_children(nodes, &nodes[k].children);
    let across: &str = match align_h {
        Some(a) => a.as_str(),
        None => "center",
    };
    let down: &str = match align_v {
        Some(a) => a.as_str(),
        None => "center",
    };
    let n: usize = children.len();
    let mut left = Double { bits: LARGEST };
    let mut top = Double { bits: LARGEST };
    let mut right = Double { bits: SMALLEST };
    let mut bottom = Double { bits: SMALLEST };
    let mut i: usize = 0;
    while i < n
        invariant
            i <= n,
            n == children.len(),
            (left, top, right, bottom) == child_span(children@, i as nat),
        decreases n - i,
    {
        let c = children[i];
        left = minimum(left, c.tx);
        top = minimum(top, c.ty);
        right = maximum(right, plus(c.tx, c.w));
        bottom = maximum(bottom, plus(c.ty, c.h));
        i += 1;
    }
    let w = maximum(minus(right, left), Double { bits: ONE });
    let h = maximum(minus(bottom, top), Double { bits: ONE });
    let ghost goal = stack_places(children@, across@, down@);
    let mut placed: Vec<Placed> = Vec::new();
    let mut j: usize = 0;
    while j < n
        invariant
            j <= n,
            n == children.len(),
            goal == stack_places(children@, across@, down@),
            (left, top, right, bottom) == child_span(children@, children@.len()),
            w == f_max(f_sub(right, left), (Double { bits: ONE })),
            h == f_max(f_sub(bottom, top), (Double { bits: ONE })),
            placed@ == goal.take(j as int),
        decreases n - j,
    {
        let c = children[j];
        placed.push(
            Placed {
                position: c.position,
                tx: anchor_at(across, "left", "right", left, w, c.w),
                ty: anchor_at(down, "top", "bottom", top, h, c.h),
            },
        );
        j += 1;
        assert(placed@ =~= goal.take(j as int));
    }
    assert(placed@ =~= goal);
    let note = if nodes[k].children.len() == 0 {
        Some("Group has no children — nothing to stack.".to_owned())
    } else if n == 0 {
        Some("No accessible children found.".to_owned())
    } else {
        None
    };
    Ok(Placement { entries: placed.len(), placed, note })
}

/// How the children of a group are laid out in a grid.
#[derive(Debug)]
pub struct GridArgs {
    pub columns: Option<usize>,
    pub gap_x: Option<Double>,
    pub gap_y: Option<Double>,
    pub padding: Option<Double>,
}

/// A grid of children: their places, and the number of columns and rows.
#[derive(Debug)]
pub struct GridPlacement {
    pub placed: Vec<Placed>,
    pub columns: usize,
    pub rows: usize,
    /// How many entries this adds to the history.
    pub entries: usize,
    pub note: Option<String>,
}

pub open spec fn grid_width(args: GridArgs) -> nat {
    match args.columns {
        Some(c) => if c >= 1 {
            c as nat
        } else {
            1
        },
        None => 3,
    }
}

/// The places in a grid, row by row; all cells have the size of the largest child.
pub open spec fn grid_places(children: Seq<Child>, args: GridArgs) -> Seq<Placed> {
    let columns = grid_width(args);
    let padding = or_default(args.padding, Double { bits: 0 });
    let step_x = f_add(
        cross_room(children, true, children.len()),
        or_default(args.gap_x, whole(8)),
    );
    let step_y = f_add(
        cross_room(children, false, children.len()),
        or_default(args.gap_y, whole(8)),
    );
    Seq::new(
        children.len(),
        |i: int|
            Placed {
                position: children[i].position,
                tx: f_add(padding, f_mul(whole(i as nat % columns), step_x)),
                ty: f_add(padding, f_mul(whole(i as nat / columns), step_y)),
            },
    )
}

/// Lays the children of a group out in a grid.
pub fn apply_grid_layout(nodes: &Vec<Node>, group: &str, args: &GridArgs) -> (r: Result<
    GridPlacement,
    String,
>)
    ensures
        match r {
            Err(e) => group_error(nodes@, group@) == Some(e@),
            Ok(p) => {
                let ids = nodes@[target(nodes@, group@)].children@;
                let children = children_of(nodes@, ids);
                &&& group_error(nodes@, group@) is None
                &&& note_view(p.note) == if ids.len() == 0 {
                    Some("Group has no children — nothing to layout."@)
                } else {
                    None
                }
                &&& p.columns == grid_width(*args)
                &&& p.rows == (children.len() + p.columns - 1) / p.columns as int
                &&& p.placed@ == grid_places(children, *args)
                &&& p.entries == if p.note is None {
                    1int
                } else {
                    0
                }
            },
        },
{
    let k: usize = match find_group(nodes, group) {
        Err(e) => {
            return Err(e);
        },
        Ok(k) => k,
    };
    let children = find_children(nodes, &nodes[k].children);
    let columns: usize = match args.columns {
        Some(c) => if c >= 1 {
            c
        } else {
            1
        },
        None => 3,
    };
    let padding = given_or_default(args.padding, Double { bits: 0 });
    let n: usize = children.len();
    let mut width = Double { bits: 0 };
    let mut height = Double { bits: 0 };
    let mut i: usize = 0;
    while i < n
        invariant
            i <= n,
            n == children.len(),
            width == cross_room(children@, true, i as nat),
            height == cross_room(children@, false, i as nat),
        decreases n - i,
    {
        width = maximum(width, children[i].w);
        height = maximum(height, children[i].h);
        i += 1;
    }
    let step_x = plus(width, given_or_default(args.gap_x, from_count(8)));
    let step_y = plus(height, given_or_default(args.gap_y, from_count(8)));
    let ghost goal = grid_places(children@, *args);
    let mut placed: Vec<Placed> = Vec::new();
    let mut j: usize = 0;
    while j < n
        invariant
            j <= n,
            n == children.len(),
            columns >= 1,
            columns == grid_width(*args),
            goal == grid_places(children@, *args),
            padding == or_default(args.padding, Double { bits: 0 }),
            step_x == f_add(
                cross_room(children@, true, children@.len()),
                or_default(args.gap_x, whole(8)),
            ),
            step_y == f_add(
                cross_room(children@, false, children@.len()),
                or_default(args.gap_y, whole(8)),
            ),
            placed@ == goal.take(j as int),
        decreases n - j,
    {
        placed.push(
            Placed {
                position: children[j].position,
                tx: plus(padding, times(from_count((j % columns) as u64), step_x)),
                ty: plus(padding, times(from_count((j / columns) as u64), step_y)),
            },
        );
        j += 1;
        assert(placed@ =~= goal.take(j as int));
    }
    assert(placed@ =~= goal);
    let full: usize = n / columns;
    let rest: usize = n % columns;
    proof {
        let c = columns as int;
        assert(n == c * full + rest) by {
            vstd::arithmetic::div_mod::lemma_fundamental_div_mod(n as int, c);
        }
        if rest == 0 {
            assert(n + c - 1 == c * full + (c - 1));
            assert(c * full == full * c) by (nonlinear_arith);
            vstd::arithmetic::div_mod::lemma_fundamental_div_mod_converse(
                n + c - 1,
                c,
                full as int,
                c - 1,
            );
        } else {
            assert(n + c - 1 == c * (full + 1) + (rest - 1)) by (nonlinear_arith)
                requires
                    n == c * full + rest,
            ;
            assert(c * (full + 1) == (full + 1) * c) by (nonlinear_arith);
            vstd::arithmetic::div_mod::lemma_fundamental_div_mod_converse(
                n + c - 1,
                c,
                full + 1,
                rest - 1,
            );
            assert(full < usize::MAX) by (nonlinear_arith)
                requires
                    n == c * full + rest,
                    c >= 1,
                    rest >= 1,
                    n <= usize::MAX,
            ;
        }
    }
    let rows: usize = if rest == 0 {
        full
    } else {
        full + 1
    };
    let note = if nodes[k].children.len() == 0 {
        Some("Group has no children — nothing to layout.".to_owned())
    } else {
        None
    };
    let entries: usize = if note.is_none() {
        1
    } else {
        0
    };
    Ok(GridPlacement { placed, columns, rows, entries, note })
}


/// A node that is sent to the back comes first in its layer, one that is brought to the front
/// comes last; one step back or forward exchanges it with its neighbour; and a node that is
/// moved above another one comes directly behind it, below it directly before it.
pub proof fn law_reordered_nodes_stand_where_they_should(
    layer: Seq<u128>,
    current: int,
    operation: ReorderOperation,
    other: int,
)
    requires
        0 <= current < layer.len(),
        0 <= other < layer.len(),
        is_relative(operation) ==> other != current,
    ensures
        ({
            let to = new_place(current, layer.len() as int, operation, other);
            let r = reordered(layer, current, to);
            let a = layer[current];
            &&& r.len() == layer.len()
            &&& operation == ReorderOperation::SendToBack ==> r[0] == a
            &&& operation == ReorderOperation::BringToFront ==> r.last() == a
            &&& operation == ReorderOperation::SendBackward && current > 0 ==> r[current - 1] == a
                && r[current] == layer[current - 1]
            &&& operation == ReorderOperation::SendBackward && current == 0 ==> r == layer
            &&& operation == ReorderOperation::BringForward && current + 1 < layer.len() ==> r[
            current + 1] == a && r[current] == layer[current + 1]
            &&& operation == ReorderOperation::BringForward && current + 1 == layer.len() ==> r
                == layer
            &&& operation == ReorderOperation::MoveAbove ==> exists|k: int|
                0 <= k < r.len() - 1 && #[trigger] r[k] == layer[other] && r[k + 1] == a
            &&& operation == ReorderOperation::MoveBelow ==> exists|k: int|
                0 < k < r.len() && #[trigger] r[k] == layer[other] && r[k - 1] == a
        }),
{
    let to = new_place(current, layer.len() as int, operation, other);
    let r = reordered(layer, current, to);
    if operation == ReorderOperation::SendBackward && current == 0 {
        assert(r =~= layer);
    }
    if operation == ReorderOperation::BringForward && current + 1 == layer.len() {
        assert(r =~= layer);
    }
    if operation == ReorderOperation::MoveAbove {
        let k = place_without(current, other);
        assert(r[k] == layer[other] && r[k + 1] == layer[current]);
    }
    if operation == ReorderOperation::MoveBelow {
        let k = place_without(current, other) + 1;
        assert(r[k] == layer[other] && r[k - 1] == layer[current]);
    }
}

/// Whatever is moved, the other nodes of a layer keep their order.
pub proof fn law_reordering_keeps_the_others(layer: Seq<u128>, from: int, to: int)
    requires
        0 <= from < layer.len(),
        0 <= to < layer.len(),
    ensures
        reordered(layer, from, to).remove(to) == layer.remove(from),
        reordered(layer, from, to)[to] == layer[from],
{
    assert(reordered(layer, from, to).remove(to) =~= layer.remove(from));
}

/// Children in a row come one behind the other from the left, with the gap between the right
/// edge of one and the left edge of the next; in a column, from the top, with the gap between
/// the bottom of one and the top of the next. The first starts at the padding.
pub proof fn law_flex_leaves_gaps(line: Seq<Child>, args: FlexArgs, i: int, j: nat)
    requires
        0 <= i < line.len() - 1,
        is_plain(line[i].w, j),
        is_plain(line[i].h, j),
        is_plain(or_default(args.gap, whole(8)), j),
        is_plain(flex_places(line, args)[i].tx, j),
        is_plain(flex_places(line, args)[i].ty, j),
    ensures
        ({
            let p = flex_places(line, args);
            let gap = exact(or_default(args.gap, whole(8)));
            &&& p.len() == line.len()
            &&& p[i].position == line[i].position
            &&& is_column(args) ==> exact(p[i + 1].ty) == exact(p[i].ty) + exact(line[i].h) + gap
            &&& !is_column(args) ==> exact(p[i + 1].tx) == exact(p[i].tx) + exact(line[i].w)
                + gap
            &&& is_column(args) ==> p[0].ty == or_default(args.padding, Double { bits: 0 })
            &&& !is_column(args) ==> p[0].tx == or_default(args.padding, Double { bits: 0 })
        }),
{
    let gap = or_default(args.gap, whole(8));
    let column = is_column(args);
    let size = main_size(line[i], column);
    let start = line_start(
        line,
        column,
        gap,
        or_default(args.padding, Double { bits: 0 }),
        i as nat,
    );
    let p = flex_places(line, args);
    assert(p[i] == flex_place(line, args, i));
    assert(p[i + 1] == flex_place(line, args, i + 1));
    assert(p[0] == flex_place(line, args, 0));
    assert(start == if column {
        p[i].ty
    } else {
        p[i].tx
    });
    lemma_plain(size, j);
    lemma_plain(gap, j);
    lemma_plain(start, j);
    lemma_add(size, gap, j, 0x4000_0000, 0x4000_0000);
    lemma_add(start, f_add(size, gap), j, 0x4000_0000, 0x8000_0000);
    assert(line_start(
        line,
        column,
        gap,
        or_default(args.padding, Double { bits: 0 }),
        (i + 1) as nat,
    ) == f_add(start, f_add(size, gap)));
}

/// Across the line, children are aligned: at the start all begin at the padding, at the end
/// their far edges are in line, and otherwise their middles are.
pub proof fn law_flex_is_aligned(line: Seq<Child>, args: FlexArgs, a: int, b: int, j: nat)
    requires
        0 <= a < line.len(),
        0 <= b < line.len(),
        is_plain(line[a].w, j),
        is_plain(line[a].h, j),
        is_plain(line[b].w, j),
        is_plain(line[b].h, j),
        is_plain(or_default(args.padding, Double { bits: 0 }), j),
        is_plain(cross_room(line, is_column(args), line.len()), j),
    ensures
        ({
            let p = flex_places(line, args);
            let align = flex_align(args);
            let padding = or_default(args.padding, Double { bits: 0 });
            &&& is_column(args) && align == "start"@ ==> p[a].tx == padding
            &&& is_column(args) && align == "end"@ ==> exact(p[a].tx) + exact(line[a].w) == exact(
                p[b].tx,
            ) + exact(line[b].w)
            &&& is_column(args) && align != "start"@ && align != "end"@ ==> 2 * exact(p[a].tx)
                + exact(line[a].w) == 2 * exact(p[b].tx) + exact(line[b].w)
            &&& !is_column(args) && align == "start"@ ==> p[a].ty == padding
            &&& !is_column(args) && align == "end"@ ==> exact(p[a].ty) + exact(line[a].h) == exact(
                p[b].ty,
            ) + exact(line[b].h)
            &&& !is_column(args) && align != "start"@ && align != "end"@ ==> 2 * exact(p[a].ty)
                + exact(line[a].h) == 2 * exact(p[b].ty) + exact(line[b].h)
        }),
{
    reveal_strlit("start");
    reveal_strlit("end");
    assert("start"@.len() != "end"@.len());
    let column = is_column(args);
    let padding = or_default(args.padding, Double { bits: 0 });
    let room = cross_room(line, column, line.len());
    let p = flex_places(line, args);
    assert(p[a] == flex_place(line, args, a));
    assert(p[b] == flex_place(line, args, b));
    lemma_room_aligned(padding, room, cross_size(line[a], column), j);
    lemma_room_aligned(padding, room, cross_size(line[b], column), j);
}

proof fn lemma_room_aligned(from: Double, room: Double, size: Double, j: nat)
    requires
        is_plain(from, j),
        is_plain(room, j),
        is_plain(size, j),
    ensures
        exact(f_sub(f_add(from, room), size)) == exact(from) + exact(room) - exact(size),
        2 * exact(f_add(from, half(f_sub(room, size)))) == 2 * exact(from) + exact(room) - exact(
            size,
        ),
{
    let h = (j - 1) as nat;
    lemma_plain(from, j);
    lemma_plain(room, j);
    lemma_plain(size, j);
    lemma_add(from, room, j, 0x4000_0000, 0x4000_0000);
    lemma_sub(f_add(from, room), size, j, 0x8000_0000, 0x4000_0000);
    lemma_sub(room, size, j, 0x4000_0000, 0x4000_0000);
    lemma_half(f_sub(room, size), j, 0x8000_0000);
    lemma_add(from, half(f_sub(room, size)), h, 0x8000_0000, 0x8000_0000);
}

/// The room across a line is that of its largest child: a column is as wide as the widest,
/// a row as high as the highest.
pub proof fn law_room_is_that_of_the_largest(children: Seq<Child>, column: bool, n: nat, i: int)
    requires
        0 <= i < n <= children.len(),
        forall|k: int|
            0 <= k < n ==> (#[trigger] children[k]).w.wf() && children[k].h.wf()
                && children[k].w.key() > 0 && children[k].h.key() > 0,
    ensures
        column ==> children[i].w.key() <= cross_room(children, column, n).key(),
        !column ==> children[i].h.key() <= cross_room(children, column, n).key(),
        exists|k: int|
            0 <= k < n && (cross_room(children, column, n) == if column {
                (#[trigger] children[k]).w
            } else {
                children[k].h
            }),
    decreases n,
{
    let before = cross_room(children, column, (n - 1) as nat);
    if n > 1 {
        law_room_is_that_of_the_largest(
            children,
            column,
            (n - 1) as nat,
            if i < n - 1 {
                i
            } else {
                0
            },
        );
        let k = choose|k: int|
            0 <= k < n - 1 && (before == if column {
                (#[trigger] children[k]).w
            } else {
                children[k].h
            });
        assert(0 <= k < n);
        assert(children[n - 1].w.wf());
    } else {
        assert(cross_room(children, column, 0) == (Double { bits: 0 }));
        assert(children[0].w.wf());
    }
    let last = children[n - 1];
}

/// A stack keeps the box that its children span, and puts every child into it where it is
/// asked to: at the left edges or the right ones, at the tops or the bottoms, and otherwise
/// middle on middle.
pub proof fn law_stack_is_aligned(
    children: Seq<Child>,
    across: Seq<char>,
    down: Seq<char>,
    a: int,
    b: int,
    j: nat,
)
    requires
        0 <= a < children.len(),
        0 <= b < children.len(),
        is_plain(children[a].w, j),
        is_plain(children[a].h, j),
        is_plain(children[b].w, j),
        is_plain(children[b].h, j),
        is_plain(child_span(children, children.len()).0, j),
        is_plain(child_span(children, children.len()).1, j),
        is_plain(child_span(children, children.len()).2, j),
        is_plain(child_span(children, children.len()).3, j),
        f_less(
            whole(1),
            f_sub(
                child_span(children, children.len()).2,
                child_span(children, children.len()).0,
            ),
        ),
        f_less(
            whole(1),
            f_sub(
                child_span(children, children.len()).3,
                child_span(children, children.len()).1,
            ),
        ),
    ensures
        ({
            let p = stack_places(children, across, down);
            let s = child_span(children, children.len());
            &&& p[a].position == children[a].position
            &&& across == "left"@ ==> p[a].tx == s.0
            &&& across == "right"@ ==> exact(p[a].tx) + exact(children[a].w) == exact(s.2)
            &&& across != "left"@ && across != "right"@ ==> 2 * exact(p[a].tx) + exact(
                children[a].w,
            ) == exact(s.0) + exact(s.2)
            &&& down == "top"@ ==> p[a].ty == s.1
            &&& down == "bottom"@ ==> exact(p[a].ty) + exact(children[a].h) == exact(s.3)
            &&& down != "top"@ && down != "bottom"@ ==> 2 * exact(p[a].ty) + exact(children[a].h)
                == exact(s.1) + exact(s.3)
        }),
{
    reveal_strlit("left");
    reveal_strlit("right");
    reveal_strlit("top");
    reveal_strlit("bottom");
    assert("left"@.len() != "right"@.len());
    assert("top"@.len() != "bottom"@.len());
    let s = child_span(children, children.len());
    lemma_anchored(s.0, s.2, children[a].w, j);
    lemma_anchored(s.1, s.3, children[a].h, j);
}

proof fn lemma_anchored(from: Double, to: Double, size: Double, j: nat)
    requires
        is_plain(from, j),
        is_plain(to, j),
        is_plain(size, j),
        f_less(whole(1), f_sub(to, from)),
    ensures
        ({
            let room = f_max(f_sub(to, from), Double { bits: ONE });
            &&& exact(f_sub(f_add(from, room), size)) == exact(to) - exact(size)
            &&& 2 * exact(f_add(from, half(f_sub(room, size)))) == exact(from) + exact(to) - exact(
                size,
            )
        }),
{
    let h = (j - 1) as nat;
    lemma_plain(from, j);
    lemma_plain(to, j);
    lemma_plain(size, j);
    lemma_one();
    lemma_sub(to, from, j, 0x4000_0000, 0x4000_0000);
    let room = f_sub(to, from);
    lemma_order(whole(1), room);
    assert(f_max(room, Double { bits: ONE }) == room);
    lemma_add(from, room, j, 0x4000_0000, 0x8000_0000);
    lemma_sub(f_add(from, room), size, j, 0xc000_0000, 0x4000_0000);
    lemma_sub(room, size, j, 0x8000_0000, 0x4000_0000);
    lemma_half(f_sub(room, size), j, 0xc000_0000);
    lemma_add(from, half(f_sub(room, size)), h, 0x8000_0000, 0xc000_0000);
}

/// The box that children span holds every one of them, and each of its edges is that of one.
pub proof fn law_span_is_tight(children: Seq<Child>, n: nat, i: int)
    requires
        0 <= i < n <= children.len(),
        forall|k: int|
            0 <= k < n ==> (#[trigger] children[k]).tx.wf() && children[k].ty.wf() && f_add(
                children[k].tx,
                children[k].w,
            ).wf() && f_add(children[k].ty, children[k].h).wf(),
    ensures
        ({
            let s = child_span(children, n);
            &&& s.0.wf() && s.1.wf() && s.2.wf() && s.3.wf()
            &&& s.0.key() <= children[i].tx.key()
            &&& s.1.key() <= children[i].ty.key()
            &&& f_add(children[i].tx, children[i].w).key() <= s.2.key()
            &&& f_add(children[i].ty, children[i].h).key() <= s.3.key()
            &&& exists|k: int| 0 <= k < n && s.0.key() == (#[trigger] children[k]).tx.key()
            &&& exists|k: int| 0 <= k < n && s.1.key() == (#[trigger] children[k]).ty.key()
            &&& exists|k: int|
                0 <= k < n && s.2.key() == f_add(
                    (#[trigger] children[k]).tx,
                    children[k].w,
                ).key()
            &&& exists|k: int|
                0 <= k < n && s.3.key() == f_add(
                    (#[trigger] children[k]).ty,
                    children[k].h,
                ).key()
        }),
    decreases n,
{
    let last = children[n - 1];
    let before = child_span(children, (n - 1) as nat);
    let s = child_span(children, n);
    assert(last.tx.wf());
    if n > 1 {
        law_span_is_tight(
            children,
            (n - 1) as nat,
            if i < n - 1 {
                i
            } else {
                0
            },
        );
        let a = choose|k: int| 0 <= k < n - 1 && before.0.key() == (#[trigger] children[k]).tx.key();
        let b = choose|k: int| 0 <= k < n - 1 && before.1.key() == (#[trigger] children[k]).ty.key();
        let c = choose|k: int|
            0 <= k < n - 1 && before.2.key() == f_add(
                (#[trigger] children[k]).tx,
                children[k].w,
            ).key();
        let d = choose|k: int|
            0 <= k < n - 1 && before.3.key() == f_add(
                (#[trigger] children[k]).ty,
                children[k].h,
            ).key();
        assert(s.0.key() == children[a].tx.key() || s.0.key() == children[n - 1].tx.key());
        assert(s.1.key() == children[b].ty.key() || s.1.key() == children[n - 1].ty.key());
        assert(s.2.key() == f_add(children[c].tx, children[c].w).key() || s.2.key() == f_add(
            children[n - 1].tx,
            children[n - 1].w,
        ).key());
        assert(s.3.key() == f_add(children[d].ty, children[d].h).key() || s.3.key() == f_add(
            children[n - 1].ty,
            children[n - 1].h,
        ).key());
    } else {
        assert(child_span(children, 0).0 == (Double { bits: LARGEST }));
        assert(s.0.key() == children[0].tx.key());
        assert(s.1.key() == children[0].ty.key());
        assert(s.2.key() == f_add(children[0].tx, children[0].w).key());
        assert(s.3.key() == f_add(children[0].ty, children[0].h).key());
    }
}

/// Children in a grid fill its rows: the next one stands one cell and one gap to the right of
/// the one before it, at its height, and the one in the next row a cell and a gap below it,
/// straight under it. The first stands at the padding.
pub proof fn law_grid_places_fill_rows(children: Seq<Child>, args: GridArgs, i: int, j: nat)
    requires
        0 <= i,
        children.len() <= 0x10_0000,
        is_plain(or_default(args.padding, Double { bits: 0 }), j),
        is_plain(or_default(args.gap_x, whole(8)), j),
        is_plain(or_default(args.gap_y, whole(8)), j),
        is_plain(cross_room(children, true, children.len()), j),
        is_plain(cross_room(children, false, children.len()), j),
    ensures
        ({
            let p = grid_places(children, args);
            let w = exact(cross_room(children, true, children.len())) + exact(
                or_default(args.gap_x, whole(8)),
            );
            let h = exact(cross_room(children, false, children.len())) + exact(
                or_default(args.gap_y, whole(8)),
            );
            let padding = exact(or_default(args.padding, Double { bits: 0 }));
            let columns = grid_width(args) as int;
            &&& p.len() == children.len()
            &&& children.len() > 0 ==> exact(p[0].tx) == padding && exact(p[0].ty) == padding
            &&& i + 1 < children.len() && (i + 1) % columns != 0 ==> exact(p[i + 1].tx) == exact(
                p[i].tx,
            ) + w && p[i + 1].ty == p[i].ty
            &&& i + columns < children.len() ==> p[i + columns].tx == p[i].tx && exact(
                p[i + columns].ty,
            ) == exact(p[i].ty) + h
        }),
{
    let p = grid_places(children, args);
    let columns = grid_width(args);
    let w = cross_room(children, true, children.len());
    let h = cross_room(children, false, children.len());
    let gx = or_default(args.gap_x, whole(8));
    let gy = or_default(args.gap_y, whole(8));
    let padding = or_default(args.padding, Double { bits: 0 });
    let x = exact(w) + exact(gx);
    let y = exact(h) + exact(gy);
    let n = i as nat;
    if children.len() > 0 {
        lemma_place_bounds(0, columns);
        lemma_cell_start(padding, 0, w, gx, j);
        lemma_cell_start(padding, 0, h, gy, j);
        assert(0 * x == 0 && 0 * y == 0);
    }
    if i + 1 < children.len() && (i + 1) % (columns as int) != 0 {
        lemma_place_bounds(n, columns);
        lemma_place_bounds(n + 1, columns);
        lemma_next_column(n, columns);
        lemma_cell_start(padding, n % columns, w, gx, j);
        lemma_cell_start(padding, (n + 1) % columns, w, gx, j);
        let m = (n % columns) as int;
        assert((m + 1) * x == m * x + x) by (nonlinear_arith);
    }
    if i + columns < children.len() {
        lemma_place_bounds(n, columns);
        lemma_place_bounds(n + columns, columns);
        lemma_next_row(n, columns);
        lemma_cell_start(padding, n / columns, h, gy, j);
        lemma_cell_start(padding, (n + columns) / columns, h, gy, j);
        let q = (n / columns) as int;
        assert((q + 1) * y == q * y + y) by (nonlinear_arith);
    }
}

/// A path takes the room of its box, across and down; nothing is smaller than one unit.
pub proof fn law_paths_take_their_room(node: Node, j: nat)
    requires
        node.kind == NodeKind::Path,
        node.bounds matches Some(b) && is_plain(b.x0, j) && is_plain(b.x1, j) && is_plain(b.y0, j)
            && is_plain(b.y1, j) && exact(b.x1) - exact(b.x0) >= exact(whole(1)) && exact(b.y1)
            - exact(b.y0) >= exact(whole(1)),
    ensures
        exact(layout_size(node).0) == exact((node.bounds->0).x1) - exact((node.bounds->0).x0),
        exact(layout_size(node).1) == exact((node.bounds->0).y1) - exact((node.bounds->0).y0),
{
    let b = node.bounds->0;
    lemma_extent(b.x0, b.x1, j);
    lemma_extent(b.y0, b.y1, j);
}

proof fn lemma_extent(from: Double, to: Double, j: nat)
    requires
        is_plain(from, j),
        is_plain(to, j),
        exact(to) - exact(from) >= exact(whole(1)),
    ensures
        exact(f_max(f_abs(f_sub(to, from)), Double { bits: ONE })) == exact(to) - exact(from),
{
    lemma_plain(from, j);
    lemma_plain(to, j);
    lemma_sub(to, from, j, 0x4000_0000, 0x4000_0000);
    let d = f_sub(to, from);
    lemma_one();
    lemma_order(whole(1), d);
    assert(f_abs(d) == d);
    lemma_order(d, whole(1));
}

/// Children of a row are taken from left to right, those of a column from top to bottom.
pub proof fn law_line_is_in_order(children: Seq<Child>, column: bool, a: int, b: int)
    requires
        0 <= a < b < children.len(),
        children.len() <= usize::MAX,
        forall|k: int|
            0 <= k < children.len() ==> !(#[trigger] children[k]).tx.is_nan()
                && !children[k].ty.is_nan(),
    ensures
        column ==> in_line(children, column)[a].ty.key() <= in_line(children, column)[b].ty.key(),
        !column ==> in_line(children, column)[a].tx.key() <= in_line(
            children,
            column,
        )[b].tx.key(),
{
    let keys = axis_keys(children, column);
    assert forall|k: int| 0 <= k < keys.len() implies !(#[trigger] keys[k]).is_nan() by {
        assert(!children[k].tx.is_nan());
    }
    law_sorted(keys, children.len());
    let order = sorted_indices(keys, children.len());
    assert(order[a] < children.len() && order[b] < children.len());
    assert(comes_first(keys, order[a], order[b]));
}


/// A child stands where its node is moved to, across and down.
pub proof fn law_children_stand_where_their_nodes_do(nodes: Seq<Node>, k: int)
    requires
        0 <= k < nodes.len(),
        nodes.len() <= usize::MAX,
    ensures
        ({
            let c = child_at(nodes, k);
            &&& c.position == k
            &&& c.tx == nodes[k].transform.e && c.ty == nodes[k].transform.f
            &&& (c.w, c.h) == layout_size(nodes[k])
        }),
{
}

} // verus!
