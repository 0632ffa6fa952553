//! Fills, strokes and the other looks of nodes.
use crate::arrange::{given_or_default, or_default};
use crate::bezier::{map_point, mapped, Point, ONE};
use crate::copies::{lemma_moved_axis, HALF};
use crate::double::Double;
use crate::figures::SHORT_P4;
use crate::find_replace::{arg_color, color_of};
use crate::float::{
    absolute, clamped, exact, f_abs, f_add, f_clamp, f_less, f_max, f_min, f_mul, f_narrow, f_sub,
    from_count, less, maximum, minimum, minus, narrowed, plus, times, to_count, truncated, whole,
};
use crate::scene::{
    around_id, count_text, counted, find_node, found_positions, has_node, id_text, named_id,
    named_positions, position_of, positions_found, resolve_node_id, resolve_targets, targets, Color,
    ColorArg, Fill, Node, NodeKind,
};
use crate::steps::{
    is_plain, lemma_add, lemma_order, lemma_plain, lemma_sub, lemma_sum_commutes, lemma_zero_value,
    within,
};
use crate::text::{
    chars_of, decimal_text, holds_text, joined, number_text, push_all, push_copy, push_str,
    same_text, text_of, texts,
};
use crate::typography::{is_target, quoted_name, quoted_text, target};
use vstd::prelude::*;

verus! {

/// 1e-6 as a number.
pub const LEAST_EXTENT: u64 = 0x3eb0_c6f7_a0b5_ed8d;

/// A text with the letters A to Z made small.
pub open spec fn ascii_lower(s: Seq<char>) -> Seq<char> {
    Seq::new(
        s.len(),
        |i: int|
            if 'A' <= s[i] && s[i] <= 'Z' {
                ((s[i] as u8) + 32) as char
            } else {
                s[i]
            },
    )
}

pub fn lower_ascii(s: &str) -> (r: String)
    ensures
        r@ == ascii_lower(s@),
{
    let v = chars_of(s);
    let mut out: Vec<char> = Vec::new();
    let mut i: usize = 0;
    while i < v.len()
        invariant
            i <= v.len(),
            v@ == s@,
            out@ == ascii_lower(s@).take(i as int),
        decreases v.len() - i,
    {
        let c = v[i];
        if 'A' <= c && c <= 'Z' {
            out.push(((c as u8) + 32) as char);
        } else {
            out.push(c);
        }
        i += 1;
        assert(out@ =~= ascii_lower(s@).take(i as int));
    }
    assert(out@ =~= ascii_lower(s@));
    text_of(&out)
}

/// A box by its corner and its size.
#[derive(Debug, Clone, Copy, PartialEq, Eq, Structural)]
pub struct Extent {
    pub x: Double,
    pub y: Double,
    pub w: Double,
    pub h: Double,
}

/// A node that a paint is resolved for, and whether it can be painted.
#[derive(Debug, Clone, Copy, PartialEq, Eq, Structural)]
pub struct PaintStep {
    pub position: usize,
    pub extent: Extent,
    pub paintable: bool,
}

/// A paint is resolved for all steps, in their order, and set where the node can be
/// painted. What is said is an error where no node can.
#[derive(Debug)]
pub struct PaintPlan {
    pub target: String,
    pub steps: Vec<PaintStep>,
    pub skipped: Vec<String>,
    pub applied: usize,
    /// How many entries the paints add to the history.
    pub entries: usize,
    pub message: String,
}

pub open spec fn can_be_painted(node: Node) -> bool {
    node.kind == NodeKind::Path || node.kind == NodeKind::Text
}

/// The box that a paint is fitted to, from two corners of the node; a node without
/// a box has a unit square.
pub open spec fn paint_extent(node: Node) -> Extent {
    match node.bounds {
        Some(b) => {
            let p = mapped(node.transform, Point { x: b.x0, y: b.y0 });
            let q = mapped(node.transform, Point { x: b.x1, y: b.y1 });
            let least = (Double { bits: LEAST_EXTENT });
            Extent {
                x: f_min(p.x, q.x),
                y: f_min(p.y, q.y),
                w: f_max(f_abs(f_sub(q.x, p.x)), least),
                h: f_max(f_abs(f_sub(q.y, p.y)), least),
            }
        },
        None => Extent {
            x: Double { bits: 0 },
            y: Double { bits: 0 },
            w: Double { bits: ONE },
            h: Double { bits: ONE },
        },
    }
}

fn extent_of_node(node: &Node) -> (r: Extent)
    ensures
        r == paint_extent(*node),
{
    match &node.bounds {
        Some(b) => {
            let p = map_point(&node.transform, Point { x: b.x0, y: b.y0 });
            let q = map_point(&node.transform, Point { x: b.x1, y: b.y1 });
            let least = Double { bits: LEAST_EXTENT };
            Extent {
                x: minimum(p.x, q.x),
                y: minimum(p.y, q.y),
                w: maximum(absolute(minus(q.x, p.x)), least),
                h: maximum(absolute(minus(q.y, p.y)), least),
            }
        },
        None => Extent {
            x: Double { bits: 0 },
            y: Double { bits: 0 },
            w: Double { bits: ONE },
            h: Double { bits: ONE },
        },
    }
}

/// The step for the node at `k`.
pub open spec fn paint_step(nodes: Seq<Node>, k: int) -> PaintStep {
    PaintStep {
        position: k as usize,
        extent: paint_extent(nodes[k]),
        paintable: can_be_painted(nodes[k]),
    }
}

pub open spec fn paint_steps(nodes: Seq<Node>, names: Seq<Seq<char>>) -> Seq<PaintStep> {
    let found = named_positions(nodes, names, false);
    Seq::new(found.len(), |i: int| paint_step(nodes, found[i] as int))
}

/// The names that stand for nothing, or for what cannot be painted.
pub open spec fn unpainted(nodes: Seq<Node>, names: Seq<Seq<char>>) -> Seq<Seq<char>>
    decreases names.len(),
{
    if names.len() == 0 {
        Seq::empty()
    } else {
        let before = unpainted(nodes, names.drop_last());
        if is_target(nodes, names.last()) && can_be_painted(nodes[target(nodes, names.last())]) {
            before
        } else {
            before.push(names.last())
        }
    }
}

pub open spec fn paint_target(target: Option<String>) -> Seq<char> {
    match target {
        Some(t) => ascii_lower(t@),
        None => ascii_lower("fill"@),
    }
}

/// Why no paint is set.
pub open spec fn paint_error(names: nat, target: Seq<char>) -> Option<Seq<char>> {
    if names == 0 {
        Some("node_ids must not be empty."@)
    } else if target != "fill"@ && target != "stroke"@ {
        Some(
            quoted_name(
                "Invalid target"@,
                target,
                " (expected \"fill\" or \"stroke\")."@,
            ),
        )
    } else {
        None
    }
}

pub open spec fn paint_message(target: Seq<char>, applied: nat, skipped: nat) -> Seq<char> {
    if applied == 0 {
        counted("No paintable nodes found ("@, skipped, " skipped)."@)
    } else {
        "Applied "@ + target + " paint to "@ + decimal_text(applied) + " node(s)"@ + (if skipped
            == 0 {
            ""@
        } else {
            counted(" ("@, skipped, " skipped)"@)
        }) + "."@
    }
}

/// Sets one paint on many nodes, fitted to the box of each, in one entry of the
/// history; where no node is painted there is none.
pub fn set_paint(nodes: &Vec<Node>, names: &Vec<String>, on: &Option<String>) -> (r: Result<
    PaintPlan,
    String,
>)
    ensures
        match r {
            Err(e) => paint_error(names@.len(), paint_target(*on)) == Some(e@),
            Ok(p) => {
                let bad = unpainted(nodes@, texts(names@));
                &&& paint_error(names@.len(), paint_target(*on)) is None
                &&& p.target@ == paint_target(*on)
                &&& p.steps@ == paint_steps(nodes@, texts(names@))
                &&& texts(p.skipped@) == bad
                &&& p.applied == names@.len() - bad.len()
                &&& p.entries == if p.applied > 0 {
                    1int
                } else {
                    0int
                }
                &&& p.message@ == paint_message(p.target@, p.applied as nat, bad.len())
            },
        },
{
    if names.len() == 0 {
        return Err("node_ids must not be empty.".to_owned());
    }
    let target = match on {
        Some(t) => lower_ascii(t.as_str()),
        None => lower_ascii("fill"),
    };
    if !same_text(target.as_str(), "fill") && !same_text(target.as_str(), "stroke") {
        return Err(
            quoted_text(
                "Invalid target",
                target.as_str(),
                " (expected \"fill\" or \"stroke\").",
            ),
        );
    }
    let ghost all = texts(names@);
    let mut steps: Vec<PaintStep> = Vec::new();
    let mut skipped: Vec<String> = Vec::new();
    let mut applied: usize = 0;
    let mut i: usize = 0;
    assert(all.take(0) =~= Seq::<Seq<char>>::empty());
    assert(steps@ =~= paint_steps(nodes@, all.take(0)));
    assert(texts(skipped@) =~= Seq::<Seq<char>>::empty());
    while i < names.len()
        invariant
            i <= names.len(),
            all == texts(names@),
            skipped.len() + applied == i,
            steps@ == paint_steps(nodes@, all.take(i as int)),
            texts(skipped@) == unpainted(nodes@, all.take(i as int)),
        decreases names.len() - i,
    {
        let name = names[i].as_str();
        proof {
            assert(all.take(i + 1).drop_last() =~= all.take(i as int));
            assert(all.take(i + 1).last() == names@[i as int]@);
        }
        let mut painted = false;
        if let Some(id) = resolve_node_id(nodes, name) {
            if let Some(k) = find_node(nodes, id) {
                painted = nodes[k].kind == NodeKind::Path || nodes[k].kind == NodeKind::Text;
                steps.push(
                    PaintStep {
                        position: k,
                        extent: extent_of_node(&nodes[k]),
                        paintable: painted,
                    },
                );
            }
        }
        assert(steps@ =~= paint_steps(nodes@, all.take(i + 1)));
        if painted {
            applied += 1;
        } else {
            assert(texts(skipped@).len() == skipped.len());
            push_copy(&mut skipped, name);
            assert(texts(skipped@).len() == skipped.len());
        }
        i += 1;
    }
    assert(all.take(all.len() as int) =~= all);
    let n: usize = skipped.len();
    let message = if applied == 0 {
        count_text("No paintable nodes found (", n, " skipped).")
    } else {
        let mut v = chars_of("Applied ");
        push_str(&mut v, target.as_str());
        push_str(&mut v, " paint to ");
        push_all(&mut v, &number_text(applied as u64));
        push_str(&mut v, " node(s)");
        if n > 0 {
            push_str(&mut v, count_text(" (", n, " skipped)").as_str());
        } else {
            push_str(&mut v, "");
        }
        push_str(&mut v, ".");
        text_of(&v)
    };
    let entries: usize = if applied > 0 {
        1
    } else {
        0
    };
    Ok(PaintPlan { target, steps, skipped, applied, entries, message })
}

/// Whether a property is copied: all are where none is listed.
pub open spec fn copies_property(listed: Option<Vec<String>>, name: Seq<char>) -> bool {
    match listed {
        None => true,
        Some(v) => texts(v@).contains(name),
    }
}

fn property_copied(listed: &Option<Vec<String>>, name: &str) -> (r: bool)
    ensures
        r == copies_property(*listed, name@),
{
    match listed {
        None => true,
        Some(v) => holds_text(v, name),
    }
}

/// What a node takes over from another.
#[derive(Debug, Clone, Copy, PartialEq, Eq, Structural)]
pub struct StyleChange {
    pub position: usize,
    pub fill: bool,
    pub stroke: bool,
    pub opacity: Option<Double>,
    /// The blend mode by its number.
    pub blend_mode: Option<u32>,
}

#[derive(Debug)]
pub struct TransferPlan {
    pub source: usize,
    pub changes: Vec<StyleChange>,
    /// How many entries the changes add to the history.
    pub entries: usize,
    pub message: String,
}

pub open spec fn transfer_error(nodes: Seq<Node>, source: u128, ids: Seq<u128>) -> Option<
    Seq<char>,
> {
    if ids.len() == 0 {
        Some("target_ids must contain at least one node ID"@)
    } else if !has_node(nodes, source) {
        Some("Source node "@ + id_text(source) + " not found"@)
    } else if found_positions(nodes, ids, false).len() == 0 {
        Some("None of the target_ids were found in the document"@)
    } else {
        None
    }
}

/// What the node at `k` takes over from `source`. Only paths have and get a fill
/// and a stroke.
pub open spec fn style_change(
    nodes: Seq<Node>,
    source: Node,
    properties: Option<Vec<String>>,
    k: usize,
) -> StyleChange {
    let paths = source.kind == NodeKind::Path && nodes[k as int].kind == NodeKind::Path;
    StyleChange {
        position: k,
        fill: paths && copies_property(properties, "fill"@),
        stroke: paths && copies_property(properties, "stroke"@),
        opacity: if copies_property(properties, "opacity"@) {
            Some(source.opacity)
        } else {
            None
        },
        blend_mode: if copies_property(properties, "blend_mode"@) {
            Some(source.blend_mode)
        } else {
            None
        },
    }
}

/// Copies the look of one node onto others, in one entry of the history.
pub fn style_transfer(
    nodes: &Vec<Node>,
    source: u128,
    ids: &Vec<u128>,
    properties: &Option<Vec<String>>,
) -> (r: Result<TransferPlan, String>)
    ensures
        match r {
            Err(e) => transfer_error(nodes@, source, ids@) == Some(e@),
            Ok(p) => {
                let found = found_positions(nodes@, ids@, false);
                let from = nodes@[position_of(nodes@, source)];
                &&& transfer_error(nodes@, source, ids@) is None
                &&& p.source == position_of(nodes@, source)
                &&& p.entries == 1
                &&& p.changes@ == Seq::new(
                    found.len(),
                    |i: int| style_change(nodes@, from, *properties, found[i]),
                )
                &&& p.message@ == quoted_name(
                    "Style transferred from"@,
                    from.name@,
                    counted(" to "@, found.len(), " node(s)"@),
                )
            },
        },
{
    if ids.len() == 0 {
        return Err("target_ids must contain at least one node ID".to_owned());
    }
    let s: usize = match find_node(nodes, source) {
        None => {
            return Err(around_id("Source node ", source, " not found"));
        },
        Some(s) => s,
    };
    let found = positions_found(nodes, ids, false);
    if found.len() == 0 {
        return Err("None of the target_ids were found in the document".to_owned());
    }
    let from = &nodes[s];
    let fill = property_copied(properties, "fill");
    let stroke = property_copied(properties, "stroke");
    let opacity = property_copied(properties, "opacity");
    let blend = property_copied(properties, "blend_mode");
    let ghost goal = Seq::new(
        found@.len(),
        |i: int| style_change(nodes@, *from, *properties, found@[i]),
    );
    let mut changes: Vec<StyleChange> = Vec::new();
    let mut i: usize = 0;
    while i < found.len()
        invariant
            i <= found.len(),
            forall|i: int| 0 <= i < found.len() ==> (#[trigger] found@[i]) < nodes.len(),
            fill == copies_property(*properties, "fill"@),
            stroke == copies_property(*properties, "stroke"@),
            opacity == copies_property(*properties, "opacity"@),
            blend == copies_property(*properties, "blend_mode"@),
            goal == Seq::new(
                found@.len(),
                |i: int| style_change(nodes@, *from, *properties, found@[i]),
            ),
            changes@ == goal.take(i as int),
        decreases found.len() - i,
    {
        let k: usize = found[i];
        let paths = from.kind == NodeKind::Path && nodes[k].kind == NodeKind::Path;
        changes.push(
            StyleChange {
                position: k,
                fill: paths && fill,
                stroke: paths && stroke,
                opacity: if opacity {
                    Some(from.opacity)
                } else {
                    None
                },
                blend_mode: if blend {
                    Some(from.blend_mode)
                } else {
                    None
                },
            },
        );
        i += 1;
        assert(changes@ =~= goal.take(i as int));
    }
    assert(changes@ =~= goal);
    let tail = count_text(" to ", found.len(), " node(s)");
    Ok(
        TransferPlan {
            source: s,
            changes,
            entries: 1,
            message: quoted_text("Style transferred from", from.name.as_str(), tail.as_str()),
        },
    )
}

/// What is copied of a look.
#[derive(Debug, Clone, Copy, PartialEq, Eq, Structural)]
pub struct AppearanceParts {
    pub fill: bool,
    pub stroke: bool,
    pub opacity: bool,
}

/// Why no look is copied.
pub open spec fn appearance_note(
    nodes: Seq<Node>,
    source: Seq<char>,
    names: Seq<Seq<char>>,
) -> Option<Seq<char>> {
    if names.len() == 0 {
        Some("No target nodes specified."@)
    } else if !is_target(nodes, source) {
        Some(quoted_name("Source node"@, source, " not found."@))
    } else if appearance_targets(nodes, target(nodes, source), names).len() == 0 {
        Some("No valid target nodes found."@)
    } else {
        None
    }
}

/// The nodes that are named, without the source.
pub open spec fn appearance_targets(nodes: Seq<Node>, source: int, names: Seq<Seq<char>>) -> Seq<
    usize,
>
    decreases names.len(),
{
    if names.len() == 0 {
        Seq::empty()
    } else {
        let before = appearance_targets(nodes, source, names.drop_last());
        let k = target(nodes, names.last());
        if is_target(nodes, names.last()) && nodes[k].id != nodes[source].id {
            before.push(k as usize)
        } else {
            before
        }
    }
}

/// What the node at `k` takes over. Only paths have and get a fill and a stroke.
pub open spec fn appearance_change(
    nodes: Seq<Node>,
    source: Node,
    parts: AppearanceParts,
    k: usize,
) -> StyleChange {
    let paths = source.kind == NodeKind::Path && nodes[k as int].kind == NodeKind::Path;
    StyleChange {
        position: k,
        fill: paths && parts.fill,
        stroke: paths && parts.stroke,
        opacity: if parts.opacity {
            Some(source.opacity)
        } else {
            None
        },
        blend_mode: None,
    }
}

/// Copies the fill, the stroke and the opacity of a node onto others.
pub fn copy_appearance(
    nodes: &Vec<Node>,
    source: &str,
    names: &Vec<String>,
    parts: AppearanceParts,
) -> (r: Result<TransferPlan, String>)
    ensures
        match r {
            Err(e) => appearance_note(nodes@, source@, texts(names@)) == Some(e@),
            Ok(p) => {
                let s = target(nodes@, source@);
                let found = appearance_targets(nodes@, s, texts(names@));
                &&& appearance_note(nodes@, source@, texts(names@)) is None
                &&& p.source == s
                &&& p.entries == 1
                &&& p.changes@ == Seq::new(
                    found.len(),
                    |i: int| appearance_change(nodes@, nodes@[s], parts, found[i]),
                )
                &&& p.message@ == quoted_name(
                    "Copied appearance from"@,
                    source@,
                    counted(" to "@, found.len(), " node(s)."@),
                )
            },
        },
{
    assert(texts(names@).len() == names@.len());
    if names.len() == 0 {
        return Err("No target nodes specified.".to_owned());
    }
    let missing = quoted_text("Source node", source, " not found.");
    let s: usize = match resolve_node_id(nodes, source) {
        None => {
            return Err(missing);
        },
        Some(id) => match find_node(nodes, id) {
            None => {
                return Err(missing);
            },
            Some(s) => s,
        },
    };
    let ghost all = texts(names@);
    let from = &nodes[s];
    let mut changes: Vec<StyleChange> = Vec::new();
    let mut i: usize = 0;
    assert(all.take(0) =~= Seq::<Seq<char>>::empty());
    assert(changes@ =~= Seq::new(
        appearance_targets(nodes@, s as int, all.take(0)).len(),
        |j: int|
            appearance_change(
                nodes@,
                *from,
                parts,
                appearance_targets(nodes@, s as int, all.take(0))[j],
            ),
    ));
    while i < names.len()
        invariant
            i <= names.len(),
            s < nodes.len(),
            *from == nodes@[s as int],
            all == texts(names@),
            changes@ == Seq::new(
                appearance_targets(nodes@, s as int, all.take(i as int)).len(),
                |j: int|
                    appearance_change(
                        nodes@,
                        *from,
                        parts,
                        appearance_targets(nodes@, s as int, all.take(i as int))[j],
                    ),
            ),
        decreases names.len() - i,
    {
        let ghost before = appearance_targets(nodes@, s as int, all.take(i as int));
        let ghost now = appearance_targets(nodes@, s as int, all.take(i + 1));
        proof {
            assert(all.take(i + 1).drop_last() =~= all.take(i as int));
            assert(all.take(i + 1).last() == names@[i as int]@);
        }
        if let Some(id) = resolve_node_id(nodes, names[i].as_str()) {
            if let Some(k) = find_node(nodes, id) {
                if nodes[k].id != from.id {
                    let paths = from.kind == NodeKind::Path && nodes[k].kind == NodeKind::Path;
                    changes.push(
                        StyleChange {
                            position: k,
                            fill: paths && parts.fill,
                            stroke: paths && parts.stroke,
                            opacity: if parts.opacity {
                                Some(from.opacity)
                            } else {
                                None
                            },
                            blend_mode: None,
                        },
                    );
                    assert(now == before.push(k));
                }
            }
        }
        i += 1;
        assert(changes@ =~= Seq::new(
            now.len(),
            |j: int| appearance_change(nodes@, *from, parts, now[j]),
        ));
    }
    assert(all.take(all.len() as int) =~= all);
    if changes.len() == 0 {
        return Err("No valid target nodes found.".to_owned());
    }
    let tail = count_text(" to ", changes.len(), " node(s).");
    Ok(
        TransferPlan {
            source: s,
            changes,
            entries: 1,
            message: quoted_text("Copied appearance from", source, tail.as_str()),
        },
    )
}

/// The nodes with these ids that can be painted.
pub open spec fn painted_positions(nodes: Seq<Node>, ids: Seq<u128>) -> Seq<usize>
    decreases ids.len(),
{
    if ids.len() == 0 {
        Seq::empty()
    } else {
        let before = painted_positions(nodes, ids.drop_last());
        let k = position_of(nodes, ids.last());
        if has_node(nodes, ids.last()) && can_be_painted(nodes[k]) {
            before.push(k as usize)
        } else {
            before
        }
    }
}

fn find_painted(nodes: &Vec<Node>, ids: &Vec<u128>) -> (r: Vec<usize>)
    ensures
        r@ == painted_positions(nodes@, ids@),
        r.len() <= ids.len(),
        forall|i: int|
            0 <= i < r.len() ==> (#[trigger] r@[i]) < nodes.len() && can_be_painted(
                nodes@[r@[i] as int],
            ),
{
    let mut out: Vec<usize> = Vec::new();
    let mut i: usize = 0;
    assert(ids@.take(0) =~= Seq::<u128>::empty());
    while i < ids.len()
        invariant
            i <= ids.len(),
            out.len() <= i,
            out@ == painted_positions(nodes@, ids@.take(i as int)),
            forall|i: int|
                0 <= i < out.len() ==> (#[trigger] out@[i]) < nodes.len() && can_be_painted(
                    nodes@[out@[i] as int],
                ),
        decreases ids.len() - i,
    {
        proof {
            assert(ids@.take(i + 1).drop_last() =~= ids@.take(i as int));
            assert(ids@.take(i + 1).last() == ids@[i as int]);
        }
        if let Some(k) = find_node(nodes, ids[i]) {
            if nodes[k].kind == NodeKind::Path || nodes[k].kind == NodeKind::Text {
                out.push(k);
            }
        }
        i += 1;
    }
    assert(ids@.take(ids@.len() as int) =~= ids@);
    out
}

/// The nodes that lose their fill or their stroke.
#[derive(Debug)]
pub struct RemovePlan {
    pub positions: Vec<usize>,
    /// How many entries this adds to the history.
    pub entries: usize,
    pub message: String,
}

/// Takes the fill off the nodes that are named, or the selection.
pub fn remove_fill(nodes: &Vec<Node>, selection: &Vec<u128>, names: &Vec<String>) -> (r: RemovePlan)
    ensures
        ({
            let ids = targets(nodes@, selection@, texts(names@));
            &&& r.positions@ == painted_positions(nodes@, ids)
            &&& r.entries == r.positions@.len()
            &&& r.message@ == counted("Removed fill from "@, r.positions@.len(), " node(s)"@)
        }),
{
    let positions = find_painted(nodes, &resolve_targets(nodes, selection, names));
    let message = count_text("Removed fill from ", positions.len(), " node(s)");
    RemovePlan { entries: positions.len(), positions, message }
}

/// Takes the stroke off the nodes that are named, or the selection.
pub fn remove_stroke(nodes: &Vec<Node>, selection: &Vec<u128>, names: &Vec<String>) -> (r:
    RemovePlan)
    ensures
        ({
            let ids = targets(nodes@, selection@, texts(names@));
            &&& r.positions@ == painted_positions(nodes@, ids)
            &&& r.entries == r.positions@.len()
            &&& r.message@ == counted("Removed stroke from "@, r.positions@.len(), " node(s)"@)
        }),
{
    let positions = find_painted(nodes, &resolve_targets(nodes, selection, names));
    let message = count_text("Removed stroke from ", positions.len(), " node(s)");
    RemovePlan { entries: positions.len(), positions, message }
}

/// How a node is blended with what lies under it.
#[derive(Debug, Clone, Copy, PartialEq, Eq, Structural)]
pub enum BlendMode {
    Normal,
    Multiply,
    Screen,
    Overlay,
    Darken,
    Lighten,
    ColorDodge,
    ColorBurn,
    HardLight,
    SoftLight,
    Difference,
    Exclusion,
    Hue,
    Saturation,
    Color,
    Luminosity,
    LinearDodge,
    LinearBurn,
    Subtract,
    Divide,
    VividLight,
    LinearLight,
    PinLight,
    HardMix,
    DarkerColor,
    LighterColor,
}

/// The name of a blend mode.
pub open spec fn blend_name(m: BlendMode) -> Seq<char> {
    match m {
        BlendMode::Normal => "normal"@,
        BlendMode::Multiply => "multiply"@,
        BlendMode::Screen => "screen"@,
        BlendMode::Overlay => "overlay"@,
        BlendMode::Darken => "darken"@,
        BlendMode::Lighten => "lighten"@,
        BlendMode::ColorDodge => "color_dodge"@,
        BlendMode::ColorBurn => "color_burn"@,
        BlendMode::HardLight => "hard_light"@,
        BlendMode::SoftLight => "soft_light"@,
        BlendMode::Difference => "difference"@,
        BlendMode::Exclusion => "exclusion"@,
        BlendMode::Hue => "hue"@,
        BlendMode::Saturation => "saturation"@,
        BlendMode::Color => "color"@,
        BlendMode::Luminosity => "luminosity"@,
        BlendMode::LinearDodge => "linear_dodge"@,
        BlendMode::LinearBurn => "linear_burn"@,
        BlendMode::Subtract => "subtract"@,
        BlendMode::Divide => "divide"@,
        BlendMode::VividLight => "vivid_light"@,
        BlendMode::LinearLight => "linear_light"@,
        BlendMode::PinLight => "pin_light"@,
        BlendMode::HardMix => "hard_mix"@,
        BlendMode::DarkerColor => "darker_color"@,
        BlendMode::LighterColor => "lighter_color"@,
    }
}

/// A word names a blend mode.
pub open spec fn is_blend_name(word: Seq<char>) -> bool {
    exists|m: BlendMode| #[trigger] blend_name(m) == word
}

/// The blend mode with a name.
pub fn blend_mode_named(word: &str) -> (r: Option<BlendMode>)
    ensures
        match r {
            Some(m) => blend_name(m) == word@,
            None => !is_blend_name(word@),
        },
{
    let known: [BlendMode; 26] = [
        BlendMode::Normal,
        BlendMode::Multiply,
        BlendMode::Screen,
        BlendMode::Overlay,
        BlendMode::Darken,
        BlendMode::Lighten,
        BlendMode::ColorDodge,
        BlendMode::ColorBurn,
        BlendMode::HardLight,
        BlendMode::SoftLight,
        BlendMode::Difference,
        BlendMode::Exclusion,
        BlendMode::Hue,
        BlendMode::Saturation,
        BlendMode::Color,
        BlendMode::Luminosity,
        BlendMode::LinearDodge,
        BlendMode::LinearBurn,
        BlendMode::Subtract,
        BlendMode::Divide,
        BlendMode::VividLight,
        BlendMode::LinearLight,
        BlendMode::PinLight,
        BlendMode::HardMix,
        BlendMode::DarkerColor,
        BlendMode::LighterColor,
    ];
    let ghost all = known@;
    let mut i: usize = 0;
    while i < 26
        invariant
            i <= 26,
            all == known@,
            all.len() == 26,
            forall|j: int| 0 <= j < i ==> blend_name(#[trigger] all[j]) != word@,
        decreases 26 - i,
    {
        if same_text(word, name_of_blend(known[i])) {
            return Some(known[i]);
        }
        i += 1;
    }
    assert forall|m: BlendMode| #[trigger] blend_name(m) != word@ by {
        let i: int = match m {
            BlendMode::Normal => 0,
            BlendMode::Multiply => 1,
            BlendMode::Screen => 2,
            BlendMode::Overlay => 3,
            BlendMode::Darken => 4,
            BlendMode::Lighten => 5,
            BlendMode::ColorDodge => 6,
            BlendMode::ColorBurn => 7,
            BlendMode::HardLight => 8,
            BlendMode::SoftLight => 9,
            BlendMode::Difference => 10,
            BlendMode::Exclusion => 11,
            BlendMode::Hue => 12,
            BlendMode::Saturation => 13,
            BlendMode::Color => 14,
            BlendMode::Luminosity => 15,
            BlendMode::LinearDodge => 16,
            BlendMode::LinearBurn => 17,
            BlendMode::Subtract => 18,
            BlendMode::Divide => 19,
            BlendMode::VividLight => 20,
            BlendMode::LinearLight => 21,
            BlendMode::PinLight => 22,
            BlendMode::HardMix => 23,
            BlendMode::DarkerColor => 24,
            BlendMode::LighterColor => 25,
        };
        assert(all[i] == m);
        assert(blend_name(all[i]) != word@);
    }
    None
}

/// The name of a blend mode.
pub fn name_of_blend(m: BlendMode) -> (r: &'static str)
    ensures
        r@ == blend_name(m),
{
    match m {
        BlendMode::Normal => "normal",
        BlendMode::Multiply => "multiply",
        BlendMode::Screen => "screen",
        BlendMode::Overlay => "overlay",
        BlendMode::Darken => "darken",
        BlendMode::Lighten => "lighten",
        BlendMode::ColorDodge => "color_dodge",
        BlendMode::ColorBurn => "color_burn",
        BlendMode::HardLight => "hard_light",
        BlendMode::SoftLight => "soft_light",
        BlendMode::Difference => "difference",
        BlendMode::Exclusion => "exclusion",
        BlendMode::Hue => "hue",
        BlendMode::Saturation => "saturation",
        BlendMode::Color => "color",
        BlendMode::Luminosity => "luminosity",
        BlendMode::LinearDodge => "linear_dodge",
        BlendMode::LinearBurn => "linear_burn",
        BlendMode::Subtract => "subtract",
        BlendMode::Divide => "divide",
        BlendMode::VividLight => "vivid_light",
        BlendMode::LinearLight => "linear_light",
        BlendMode::PinLight => "pin_light",
        BlendMode::HardMix => "hard_mix",
        BlendMode::DarkerColor => "darker_color",
        BlendMode::LighterColor => "lighter_color",
    }
}

#[derive(Debug)]
pub struct BlendModePlan {
    pub mode: BlendMode,
    pub positions: Vec<usize>,
    /// How many entries this adds to the history.
    pub entries: usize,
    pub message: String,
}

/// Sets the blend mode of the nodes that are named, or of the selection.
pub fn set_blend_mode(
    nodes: &Vec<Node>,
    selection: &Vec<u128>,
    names: &Vec<String>,
    word: &str,
) -> (r: Result<BlendModePlan, String>)
    ensures
        ({
            let ids = targets(nodes@, selection@, texts(names@));
            match r {
                Err(e) => if !is_blend_name(word@) {
                    e@ == quoted_name("Unknown blend mode:"@, word@, ""@)
                } else {
                    ids.len() == 0 && e@ == "No nodes specified and nothing selected"@
                },
                Ok(p) => {
                    &&& blend_name(p.mode) == word@
                    &&& ids.len() > 0
                    &&& p.positions@ == found_positions(nodes@, ids, false)
                    &&& p.entries == p.positions@.len()
                    &&& p.message@ == quoted_name(
                        "Set blend mode to"@,
                        word@,
                        counted(" on "@, p.positions@.len(), " node(s)"@),
                    )
                },
            }
        }),
{
    let mode = match blend_mode_named(word) {
        None => {
            return Err(quoted_text("Unknown blend mode:", word, ""));
        },
        Some(m) => m,
    };
    assert(is_blend_name(word@));
    let ids = resolve_targets(nodes, selection, names);
    if ids.len() == 0 {
        return Err("No nodes specified and nothing selected".to_owned());
    }
    let positions = positions_found(nodes, &ids, false);
    let tail = count_text(" on ", positions.len(), " node(s)");
    Ok(
        BlendModePlan {
            mode,
            entries: positions.len(),
            positions,
            message: quoted_text("Set blend mode to", word, tail.as_str()),
        },
    )
}

#[derive(Debug)]
pub struct OpacityPlan {
    pub positions: Vec<usize>,
    /// How many entries this adds to the history.
    pub entries: usize,
    pub opacity: Double,
}

/// Sets the opacity, kept from 0 to 1, of the nodes that are named, or of the
/// selection.
pub fn set_opacity(
    nodes: &Vec<Node>,
    selection: &Vec<u128>,
    names: &Vec<String>,
    opacity: Double,
) -> (r: Result<OpacityPlan, String>)
    ensures
        ({
            let ids = targets(nodes@, selection@, texts(names@));
            match r {
                Err(e) => ids.len() == 0 && e@ == "No nodes specified and nothing selected"@,
                Ok(p) => {
                    &&& ids.len() > 0
                    &&& p.positions@ == found_positions(nodes@, ids, false)
                    &&& p.entries == p.positions@.len()
                    &&& p.opacity == f_clamp(opacity, Double { bits: 0 }, Double { bits: ONE })
                },
            }
        }),
{
    let ids = resolve_targets(nodes, selection, names);
    if ids.len() == 0 {
        return Err("No nodes specified and nothing selected".to_owned());
    }
    let positions = positions_found(nodes, &ids, false);
    Ok(
        OpacityPlan {
            entries: positions.len(),
            positions,
            opacity: clamped(opacity, Double { bits: 0 }, Double { bits: ONE }),
        },
    )
}

/// A stroke of one colour.
#[derive(Debug, Clone, Copy, PartialEq, Eq, Structural)]
pub struct PlainStroke {
    pub color: Color,
    pub width: Double,
}

/// The fill and the stroke that a node gets; none is no paint at all.
#[derive(Debug, Clone, Copy, PartialEq, Eq, Structural)]
pub struct SwappedPaint {
    pub position: usize,
    pub fill: Option<Color>,
    pub stroke: Option<PlainStroke>,
}

/// The paints that a swap gives the node at position `k`.
pub open spec fn swapped_paint(node: Node, k: usize) -> SwappedPaint {
    let one = (Double { bits: ONE });
    SwappedPaint {
        position: k,
        fill: if node.stroke_enabled {
            Some(node.stroke_color)
        } else {
            None
        },
        stroke: match node.fill {
            Fill::Solid(c) => Some(
                PlainStroke {
                    color: c,
                    width: if node.kind == NodeKind::Path && f_less(
                        Double { bits: 0 },
                        node.stroke_width,
                    ) {
                        node.stroke_width
                    } else {
                        one
                    },
                },
            ),
            _ => None,
        },
    }
}

/// A node with the paints that it gets. `bare` is the width of a stroke that is none.
pub open spec fn repainted(node: Node, s: SwappedPaint, bare: Double) -> Node {
    Node {
        fill: match s.fill {
            Some(c) => Fill::Solid(c),
            None => Fill::Other,
        },
        stroke_enabled: s.stroke is Some,
        stroke_color: match s.stroke {
            Some(p) => p.color,
            None => node.stroke_color,
        },
        stroke_width: match s.stroke {
            Some(p) => p.width,
            None => bare,
        },
        ..node
    }
}

/// The paints that a node gets by the swap after `n` others.
pub open spec fn next_swap(node: Node, k: usize, bare: Double, n: nat) -> SwappedPaint
    decreases n,
{
    if n == 0 {
        swapped_paint(node, k)
    } else {
        swapped_paint(repainted(node, next_swap(node, k, bare, (n - 1) as nat), bare), k)
    }
}

/// How often a position stands among the first `n`.
pub open spec fn times_listed(positions: Seq<usize>, k: usize, n: nat) -> nat
    decreases n,
{
    if n == 0 {
        0
    } else {
        times_listed(positions, k, (n - 1) as nat) + if positions[n - 1] == k {
            1nat
        } else {
            0
        }
    }
}

/// The swap that a list of positions has at `i`. A node that stands there more than
/// once is swapped as often.
pub open spec fn listed_swap(nodes: Seq<Node>, found: Seq<usize>, bare: Double, i: int) -> SwappedPaint {
    let k = found[i];
    next_swap(nodes[k as int], k, bare, times_listed(found, k, i as nat))
}

fn count_listed(positions: &Vec<usize>, k: usize, n: usize) -> (r: usize)
    requires
        n <= positions.len(),
    ensures
        r == times_listed(positions@, k, n as nat),
        r <= n,
{
    let mut count: usize = 0;
    let mut i: usize = 0;
    while i < n
        invariant
            i <= n <= positions.len(),
            count <= i,
            count == times_listed(positions@, k, i as nat),
        decreases n - i,
    {
        if positions[i] == k {
            count += 1;
        }
        i += 1;
    }
    count
}

fn swap_paint(node: &Node, k: usize, bare: Double, n: usize) -> (r: SwappedPaint)
    ensures
        r == next_swap(*node, k, bare, n as nat),
    decreases n,
{
    let zero = Double { bits: 0 };
    let path = node.kind == NodeKind::Path;
    if n == 0 {
        let width = if path && less(zero, node.stroke_width) {
            node.stroke_width
        } else {
            Double { bits: ONE }
        };
        return SwappedPaint {
            position: k,
            fill: if node.stroke_enabled {
                Some(node.stroke_color)
            } else {
                None
            },
            stroke: match &node.fill {
                Fill::Solid(c) => Some(PlainStroke { color: *c, width }),
                _ => None,
            },
        };
    }
    let last = swap_paint(node, k, bare, n - 1);
    let had = match last.stroke {
        Some(p) => p.width,
        None => bare,
    };
    let width = if path && less(zero, had) {
        had
    } else {
        Double { bits: ONE }
    };
    SwappedPaint {
        position: k,
        fill: match last.stroke {
            Some(p) => Some(p.color),
            None => None,
        },
        stroke: match last.fill {
            Some(color) => Some(PlainStroke { color, width }),
            None => None,
        },
    }
}

/// Swapping the fill and the stroke of a path twice restores them, where the fill
/// is solid and the stroke is on and has a width.
pub proof fn law_swapped_twice(node: Node, bare: Double)
    requires
        node.kind == NodeKind::Path,
        node.fill is Solid,
        node.stroke_enabled,
        f_less(Double { bits: 0 }, node.stroke_width),
    ensures
        ({
            let once = repainted(node, next_swap(node, 0, bare, 0), bare);
            let twice = repainted(node, next_swap(node, 0, bare, 1), bare);
            &&& once.fill == Fill::Solid(node.stroke_color)
            &&& twice.fill == node.fill
            &&& twice.stroke_enabled
            &&& twice.stroke_color == node.stroke_color
            &&& twice.stroke_width == node.stroke_width
        }),
{
    reveal_with_fuel(next_swap, 2);
}

/// The swaps, one after the other, how many entries they add to the history, and what
/// is said.
#[derive(Debug)]
pub struct SwapPlan {
    pub swaps: Vec<SwappedPaint>,
    pub entries: usize,
    pub message: String,
}

/// Makes the colour of the fill that of the stroke, and the other way round. Each swap
/// is an entry of the history. `bare` is the width of a stroke that is none.
pub fn swap_fill_stroke(
    nodes: &Vec<Node>,
    selection: &Vec<u128>,
    names: &Vec<String>,
    bare: Double,
) -> (r: Result<SwapPlan, String>)
    ensures
        ({
            let ids = targets(nodes@, selection@, texts(names@));
            let found = painted_positions(nodes@, ids);
            match r {
                Err(e) => ids.len() == 0 && e@ == "No nodes specified and nothing selected"@,
                Ok(p) => {
                    &&& ids.len() > 0
                    &&& p.swaps@ == Seq::new(
                        found.len(),
                        |i: int| listed_swap(nodes@, found, bare, i),
                    )
                    &&& p.entries == found.len()
                    &&& p.message@ == counted(
                        "Swapped fill and stroke on "@,
                        found.len(),
                        " node(s)"@,
                    )
                },
            }
        }),
{
    let ids = resolve_targets(nodes, selection, names);
    if ids.len() == 0 {
        return Err("No nodes specified and nothing selected".to_owned());
    }
    let found = find_painted(nodes, &ids);
    let ghost goal = Seq::new(found@.len(), |i: int| listed_swap(nodes@, found@, bare, i));
    let mut swaps: Vec<SwappedPaint> = Vec::new();
    let mut i: usize = 0;
    while i < found.len()
        invariant
            i <= found.len(),
            forall|i: int| 0 <= i < found.len() ==> (#[trigger] found@[i]) < nodes.len(),
            goal == Seq::new(found@.len(), |i: int| listed_swap(nodes@, found@, bare, i)),
            swaps@ == goal.take(i as int),
        decreases found.len() - i,
    {
        let k: usize = found[i];
        let n: usize = count_listed(&found, k, i);
        swaps.push(swap_paint(&nodes[k], k, bare, n));
        i += 1;
        assert(swaps@ =~= goal.take(i as int));
    }
    assert(swaps@ =~= goal);
    let message = count_text("Swapped fill and stroke on ", found.len(), " node(s)");
    Ok(SwapPlan { swaps, entries: found.len(), message })
}

/// What casts a shadow: the node at a position, or one of the shadows made before.
#[derive(Debug, Clone, Copy, PartialEq, Eq, Structural)]
pub enum ShadowSource {
    Node(usize),
    Shadow(usize),
}

/// A shadow: where it stands, and whether it is painted in the colour of the shadow.
#[derive(Debug)]
pub struct Shadow {
    pub source: ShadowSource,
    pub name: String,
    pub tx: Double,
    pub ty: Double,
    pub recolored: bool,
}

pub type ShadowView = (ShadowSource, Seq<char>, Double, Double, bool);

pub open spec fn shadow_views(v: Seq<Shadow>) -> Seq<ShadowView> {
    Seq::new(v.len(), |i: int| (v[i].source, v[i].name@, v[i].tx, v[i].ty, v[i].recolored))
}

pub open spec fn shadow_of(nodes: Seq<Node>, k: int, ox: Double, oy: Double) -> ShadowView {
    let node = nodes[k];
    (
        ShadowSource::Node(k as usize),
        node.name@ + " Shadow"@,
        f_add(node.transform.e, ox),
        f_add(node.transform.f, oy),
        can_be_painted(node),
    )
}

/// The first shadow that is called `name`.
pub open spec fn first_called(shadows: Seq<ShadowView>, name: Seq<char>) -> Option<int>
    decreases shadows.len(),
{
    if shadows.len() == 0 {
        None
    } else {
        match first_called(shadows.drop_last(), name) {
            Some(j) => Some(j),
            None => if shadows.last().1 == name {
                Some(shadows.len() - 1)
            } else {
                None
            },
        }
    }
}

/// The shadow of what `name` names among the nodes and the shadows that there are by
/// then. A shadow has a new id, so that it is named by its name only.
pub open spec fn next_shadow(
    nodes: Seq<Node>,
    shadows: Seq<ShadowView>,
    name: Seq<char>,
    ox: Double,
    oy: Double,
) -> Option<ShadowView> {
    match named_id(nodes, name) {
        Some(id) => if has_node(nodes, id) {
            Some(shadow_of(nodes, position_of(nodes, id), ox, oy))
        } else {
            None
        },
        None => match first_called(shadows, name) {
            Some(j) => Some(
                (
                    ShadowSource::Shadow(j as usize),
                    shadows[j].1 + " Shadow"@,
                    f_add(shadows[j].2, ox),
                    f_add(shadows[j].3, oy),
                    shadows[j].4,
                ),
            ),
            None => None,
        },
    }
}

/// The shadows that the names give, one after the other.
pub open spec fn shadows_of(
    nodes: Seq<Node>,
    names: Seq<Seq<char>>,
    ox: Double,
    oy: Double,
) -> Seq<ShadowView>
    decreases names.len(),
{
    if names.len() == 0 {
        Seq::empty()
    } else {
        let before = shadows_of(nodes, names.drop_last(), ox, oy);
        match next_shadow(nodes, before, names.last(), ox, oy) {
            Some(s) => before.push(s),
            None => before,
        }
    }
}

/// The shadows, their opacity, which is of the binary32 format, their colour, and how
/// many entries they add to the history.
#[derive(Debug)]
pub struct ShadowPlan {
    pub shadows: Vec<Shadow>,
    pub entries: usize,
    pub opacity: Double,
    pub color: Color,
    pub skipped: usize,
}

/// The colour of a shadow: black where none that can be read is given.
pub open spec fn shadow_color(color: Option<ColorArg>) -> Color {
    match arg_color(color) {
        Some(c) => c,
        None => black(),
    }
}

/// Black.
pub open spec fn black() -> Color {
    let zero = (Double { bits: 0 });
    Color { r: zero, g: zero, b: zero, a: Double { bits: ONE } }
}

/// The colour that is given, or black.
pub fn color_or_black(color: Option<Color>) -> (r: Color)
    ensures
        r == match color {
            Some(c) => c,
            None => black(),
        },
{
    let zero = Double { bits: 0 };
    match color {
        Some(c) => c,
        None => Color { r: zero, g: zero, b: zero, a: Double { bits: ONE } },
    }
}

/// A note on what was skipped; nothing where nothing was.
pub open spec fn skipped_note(skipped: nat, behind: Seq<char>) -> Seq<char> {
    if skipped > 0 {
        counted(" — "@, skipped, behind)
    } else {
        ""@
    }
}

/// A note on what was skipped.
pub fn note_skipped(skipped: usize, behind: &str) -> (r: String)
    ensures
        r@ == skipped_note(skipped as nat, behind@),
{
    if skipped > 0 {
        count_text(" — ", skipped, behind)
    } else {
        "".to_owned()
    }
}

fn find_called(shadows: &Vec<Shadow>, name: &str) -> (r: Option<usize>)
    ensures
        match r {
            Some(j) => j < shadows.len() && first_called(shadow_views(shadows@), name@) == Some(
                j as int,
            ),
            None => first_called(shadow_views(shadows@), name@) is None,
        },
{
    let ghost all = shadow_views(shadows@);
    let mut found: Option<usize> = None;
    let mut j: usize = 0;
    assert(all.take(0) =~= Seq::<ShadowView>::empty());
    while j < shadows.len()
        invariant
            j <= shadows.len(),
            all == shadow_views(shadows@),
            match found {
                Some(f) => f < j && first_called(all.take(j as int), name@) == Some(f as int),
                None => first_called(all.take(j as int), name@) is None,
            },
        decreases shadows.len() - j,
    {
        proof {
            assert(all.take(j + 1).drop_last() =~= all.take(j as int));
            assert(all.take(j + 1).last() == all[j as int]);
        }
        if found.is_none() && same_text(shadows[j].name.as_str(), name) {
            found = Some(j);
        }
        j += 1;
    }
    assert(all.take(all.len() as int) =~= all);
    found
}

fn make_shadow(
    nodes: &Vec<Node>,
    shadows: &Vec<Shadow>,
    name: &str,
    ox: Double,
    oy: Double,
) -> (r: Option<Shadow>)
    ensures
        match r {
            Some(s) => next_shadow(nodes@, shadow_views(shadows@), name@, ox, oy) == Some(
                (s.source, s.name@, s.tx, s.ty, s.recolored),
            ),
            None => next_shadow(nodes@, shadow_views(shadows@), name@, ox, oy) is None,
        },
{
    match resolve_node_id(nodes, name) {
        Some(id) => match find_node(nodes, id) {
            Some(k) => {
                let node = &nodes[k];
                Some(
                    Shadow {
                        source: ShadowSource::Node(k),
                        name: joined(node.name.as_str(), " Shadow"),
                        tx: plus(node.transform.e, ox),
                        ty: plus(node.transform.f, oy),
                        recolored: node.kind == NodeKind::Path || node.kind == NodeKind::Text,
                    },
                )
            },
            None => None,
        },
        None => match find_called(shadows, name) {
            Some(j) => {
                let s = &shadows[j];
                Some(
                    Shadow {
                        source: ShadowSource::Shadow(j),
                        name: joined(s.name.as_str(), " Shadow"),
                        tx: plus(s.tx, ox),
                        ty: plus(s.ty, oy),
                        recolored: s.recolored,
                    },
                )
            },
            None => None,
        },
    }
}

/// Shadows of what is named, at an offset of 5 in both directions where none is given.
/// Each is an entry of the history.
pub fn add_drop_shadow(
    nodes: &Vec<Node>,
    names: &Vec<String>,
    offset_x: Option<Double>,
    offset_y: Option<Double>,
    opacity: Option<Double>,
    color: &Option<ColorArg>,
) -> (r: Result<ShadowPlan, String>)
    ensures
        ({
            let ox = or_default(offset_x, whole(5));
            let oy = or_default(offset_y, whole(5));
            let made = shadows_of(nodes@, texts(names@), ox, oy);
            match r {
                Err(e) => if names@.len() == 0 {
                    e@ == "node_ids must not be empty"@
                } else {
                    made.len() == 0 && e@ == "No valid nodes found"@
                },
                Ok(p) => {
                    &&& names@.len() > 0
                    &&& made.len() > 0
                    &&& shadow_views(p.shadows@) == made
                    &&& p.entries == made.len()
                    &&& p.opacity == or_default(opacity, (Double { bits: SHORT_P4 }))
                    &&& p.color == shadow_color(*color)
                    &&& p.skipped == names@.len() - made.len()
                },
            }
        }),
{
    if names.len() == 0 {
        return Err("node_ids must not be empty".to_owned());
    }
    let ox = given_or_default(offset_x, from_count(5));
    let oy = given_or_default(offset_y, from_count(5));
    let ghost all = texts(names@);
    let mut shadows: Vec<Shadow> = Vec::new();
    let mut i: usize = 0;
    assert(all.take(0) =~= Seq::<Seq<char>>::empty());
    assert(shadow_views(shadows@) =~= Seq::<ShadowView>::empty());
    while i < names.len()
        invariant
            i <= names.len(),
            shadows.len() <= i,
            all == texts(names@),
            shadow_views(shadows@) == shadows_of(nodes@, all.take(i as int), ox, oy),
        decreases names.len() - i,
    {
        proof {
            assert(all.take(i + 1).drop_last() =~= all.take(i as int));
            assert(all.take(i + 1).last() == names@[i as int]@);
        }
        if let Some(s) = make_shadow(nodes, &shadows, names[i].as_str(), ox, oy) {
            let ghost before = shadows@;
            let ghost view = (s.source, s.name@, s.tx, s.ty, s.recolored);
            shadows.push(s);
            assert(shadow_views(shadows@) =~= shadow_views(before).push(view));
        }
        i += 1;
    }
    assert(all.take(all.len() as int) =~= all);
    assert(shadow_views(shadows@).len() == shadows.len());
    if shadows.len() == 0 {
        return Err("No valid nodes found".to_owned());
    }
    Ok(
        ShadowPlan {
            entries: shadows.len(),
            opacity: given_or_default(opacity, Double { bits: SHORT_P4 }),
            color: color_or_black(color_of(color)),
            skipped: names.len() - shadows.len(),
            shadows,
        },
    )
}

/// The colours that a node gets at random.
#[derive(Debug, Clone, Copy, PartialEq, Eq, Structural)]
pub struct RandomPaint {
    pub position: usize,
    pub fill: Option<Color>,
    pub stroke: Option<Color>,
}

#[derive(Debug)]
pub struct RandomPlan {
    pub paints: Vec<RandomPaint>,
    /// How many entries this adds to the history.
    pub entries: usize,
    pub message: String,
}

/// A random number from -1 to 1 brought to the stretch from 0 to 1.
pub open spec fn from_zero_to_one(v: Double) -> Double {
    f_add(f_mul(v, Double { bits: HALF }), Double { bits: HALF })
}

fn unit_value(v: Double) -> (r: Double)
    ensures
        r == from_zero_to_one(v),
{
    let h = Double { bits: HALF };
    plus(times(v, h), h)
}

/// The number of colours in a palette that is made at random.
pub const RANDOM_COLORS: usize = 10;

/// A colour from three random numbers.
pub open spec fn random_color(values: Seq<Double>, i: int) -> Color {
    Color {
        r: f_narrow(from_zero_to_one(values[3 * i])),
        g: f_narrow(from_zero_to_one(values[3 * i + 1])),
        b: f_narrow(from_zero_to_one(values[3 * i + 2])),
        a: Double { bits: ONE },
    }
}

/// The colours that could be read.
pub open spec fn read_colors(colors: Seq<Option<Color>>) -> Seq<Color>
    decreases colors.len(),
{
    if colors.len() == 0 {
        Seq::empty()
    } else {
        let before = read_colors(colors.drop_last());
        match colors.last() {
            Some(c) => before.push(c),
            None => before,
        }
    }
}

/// The colours to pick from: those that are given and could be read, or random ones.
pub open spec fn palette_of(given: Seq<Option<Color>>, values: Seq<Double>) -> Seq<Color> {
    if given.len() == 0 {
        Seq::new(RANDOM_COLORS as nat, |i: int| random_color(values, i))
    } else {
        read_colors(given)
    }
}

/// The colour that a random number picks.
pub open spec fn picked(palette: Seq<Color>, v: Double) -> Color {
    let at = truncated(f_mul(from_zero_to_one(v), whole(palette.len())), usize::MAX as nat);
    palette[(at % palette.len()) as int]
}

/// The paints of the first `n` nodes, and how many random numbers they take.
pub open spec fn random_paints(
    nodes: Seq<Node>,
    found: Seq<usize>,
    palette: Seq<Color>,
    picks: Seq<Double>,
    fill: bool,
    stroke: bool,
    n: nat,
) -> (Seq<RandomPaint>, nat)
    decreases n,
{
    if n == 0 {
        (Seq::empty(), 0)
    } else {
        let (before, used) = random_paints(
            nodes,
            found,
            palette,
            picks,
            fill,
            stroke,
            (n - 1) as nat,
        );
        let k = found[n - 1];
        let node = nodes[k as int];
        let strokes = stroke && node.kind == NodeKind::Path && node.stroke_enabled;
        let at = used + if fill {
            1nat
        } else {
            0
        };
        (
            before.push(
                RandomPaint {
                    position: k,
                    fill: if fill {
                        Some(picked(palette, picks[used as int]))
                    } else {
                        None
                    },
                    stroke: if strokes {
                        Some(picked(palette, picks[at as int]))
                    } else {
                        None
                    },
                },
            ),
            at + if strokes {
                1nat
            } else {
                0
            },
        )
    }
}

fn pick(palette: &Vec<Color>, v: Double) -> (r: Color)
    requires
        palette.len() > 0,
    ensures
        r == picked(palette@, v),
{
    let n: usize = palette.len();
    let at: u64 = to_count(times(unit_value(v), from_count(n as u64)), usize::MAX as u64);
    palette[(at as usize) % n]
}

fn make_palette(given: &Vec<Option<Color>>, values: &Vec<Double>) -> (r: Vec<Color>)
    requires
        given.len() == 0 ==> values.len() >= 3 * RANDOM_COLORS,
    ensures
        r@ == palette_of(given@, values@),
{
    let mut out: Vec<Color> = Vec::new();
    if given.len() == 0 {
        let ghost goal = palette_of(given@, values@);
        let mut i: usize = 0;
        while i < RANDOM_COLORS
            invariant
                i <= RANDOM_COLORS,
                values.len() >= 3 * RANDOM_COLORS,
                goal == Seq::new(RANDOM_COLORS as nat, |i: int| random_color(values@, i)),
                out@ == goal.take(i as int),
            decreases RANDOM_COLORS - i,
        {
            out.push(
                Color {
                    r: narrowed(unit_value(values[3 * i])),
                    g: narrowed(unit_value(values[3 * i + 1])),
                    b: narrowed(unit_value(values[3 * i + 2])),
                    a: Double { bits: ONE },
                },
            );
            i += 1;
            assert(out@ =~= goal.take(i as int));
        }
        assert(out@ =~= goal);
        return out;
    }
    let mut i: usize = 0;
    assert(given@.take(0) =~= Seq::<Option<Color>>::empty());
    while i < given.len()
        invariant
            i <= given.len(),
            out@ == read_colors(given@.take(i as int)),
        decreases given.len() - i,
    {
        proof {
            assert(given@.take(i + 1).drop_last() =~= given@.take(i as int));
            assert(given@.take(i + 1).last() == given@[i as int]);
        }
        if let Some(c) = given[i] {
            out.push(c);
        }
        i += 1;
    }
    assert(given@.take(given@.len() as int) =~= given@);
    out
}

/// Which paints are randomized.
#[derive(Debug, Clone, Copy, PartialEq, Eq, Structural)]
pub struct RandomizeParts {
    pub fill: bool,
    pub stroke: bool,
}

/// Gives nodes colours of a palette at random. `values` are the random numbers that
/// a palette is made from where none is given, `picks` those that pick colours.
pub fn randomize_colors(
    nodes: &Vec<Node>,
    selection: &Vec<u128>,
    names: &Vec<String>,
    given: &Vec<Option<Color>>,
    values: &Vec<Double>,
    picks: &Vec<Double>,
    parts: RandomizeParts,
) -> (r: Result<RandomPlan, String>)
    requires
        given.len() == 0 ==> values.len() >= 3 * RANDOM_COLORS,
        picks.len() >= 2 * (names.len() + selection.len()),
    ensures
        ({
            let ids = targets(nodes@, selection@, texts(names@));
            let palette = palette_of(given@, values@);
            let found = painted_positions(nodes@, ids);
            match r {
                Err(e) => if ids.len() == 0 {
                    e@ == "No nodes specified and nothing selected"@
                } else {
                    palette.len() == 0 && e@ == "No valid colors in palette"@
                },
                Ok(p) => {
                    &&& ids.len() > 0
                    &&& palette.len() > 0
                    &&& p.paints@ == random_paints(
                        nodes@,
                        found,
                        palette,
                        picks@,
                        parts.fill,
                        parts.stroke,
                        found.len(),
                    ).0
                    &&& p.entries == found.len()
                    &&& p.message@ == "Randomized colors on "@ + decimal_text(found.len())
                        + " node(s) from "@ + decimal_text(palette.len()) + " palette colors"@
                },
            }
        }),
{
    let ids = resolve_targets(nodes, selection, names);
    if ids.len() == 0 {
        return Err("No nodes specified and nothing selected".to_owned());
    }
    let palette = make_palette(given, values);
    if palette.len() == 0 {
        return Err("No valid colors in palette".to_owned());
    }
    let found = find_painted(nodes, &ids);
    let mut paints: Vec<RandomPaint> = Vec::new();
    let mut used: usize = 0;
    let mut i: usize = 0;
    while i < found.len()
        invariant
            i <= found.len(),
            palette.len() > 0,
            used <= 2 * i,
            2 * found.len() <= picks.len(),
            forall|i: int|
                0 <= i < found.len() ==> (#[trigger] found@[i]) < nodes.len() && can_be_painted(
                    nodes@[found@[i] as int],
                ),
            (paints@, used as nat) == random_paints(
                nodes@,
                found@,
                palette@,
                picks@,
                parts.fill,
                parts.stroke,
                i as nat,
            ),
        decreases found.len() - i,
    {
        let k: usize = found[i];
        let node = &nodes[k];
        let fill = if parts.fill {
            Some(pick(&palette, picks[used]))
        } else {
            None
        };
        if parts.fill {
            used += 1;
        }
        let strokes = parts.stroke && node.kind == NodeKind::Path && node.stroke_enabled;
        let stroke = if strokes {
            Some(pick(&palette, picks[used]))
        } else {
            None
        };
        if strokes {
            used += 1;
        }
        paints.push(RandomPaint { position: k, fill, stroke });
        i += 1;
    }
    let mut v = chars_of("Randomized colors on ");
    push_all(&mut v, &number_text(found.len() as u64));
    push_str(&mut v, " node(s) from ");
    push_all(&mut v, &number_text(palette.len() as u64));
    push_str(&mut v, " palette colors");
    Ok(RandomPlan { paints, entries: found.len(), message: text_of(&v) })
}


/// A paint is fitted to the box of a node where the node stands: it starts at the left and
/// the top of the box and is as wide and as high as the box is.
pub proof fn law_paint_fills_the_box(node: Node, j: nat)
    requires
        node.transform.a == whole(1),
        node.transform.d == whole(1),
        node.transform.b.bits == 0,
        node.transform.c.bits == 0,
        is_plain(node.transform.e, j),
        is_plain(node.transform.f, j),
        node.bounds matches Some(b) && is_plain(b.x0, j) && is_plain(b.x1, j) && is_plain(b.y0, j)
            && is_plain(b.y1, j) && exact(b.x1) - exact(b.x0) > exact(
            Double { bits: LEAST_EXTENT },
        ) && exact(b.y1) - exact(b.y0) > exact(Double { bits: LEAST_EXTENT }),
    ensures
        ({
            let r = paint_extent(node);
            let b = node.bounds->0;
            let m = node.transform;
            &&& exact(r.x) == exact(b.x0) + exact(m.e)
            &&& exact(r.y) == exact(b.y0) + exact(m.f)
            &&& exact(r.w) == exact(b.x1) - exact(b.x0)
            &&& exact(r.h) == exact(b.y1) - exact(b.y0)
        }),
{
    let b = node.bounds->0;
    let m = node.transform;
    lemma_moved_axis(m.a, m.c, b.x0, b.y0, m.e, j);
    lemma_moved_axis(m.a, m.c, b.x1, b.y1, m.e, j);
    lemma_moved_axis(m.d, m.b, b.y0, b.x0, m.f, j);
    lemma_moved_axis(m.d, m.b, b.y1, b.x1, m.f, j);
    lemma_sum_commutes(f_mul(m.d, b.y0), f_mul(m.b, b.x0));
    lemma_sum_commutes(f_mul(m.d, b.y1), f_mul(m.b, b.x1));
    let p = mapped(m, Point { x: b.x0, y: b.y0 });
    let q = mapped(m, Point { x: b.x1, y: b.y1 });
    lemma_painted(p.x, q.x, j);
    lemma_painted(p.y, q.y, j);
}

proof fn lemma_painted(p: Double, q: Double, j: nat)
    requires
        within(p, j, 0x8000_0000),
        within(q, j, 0x8000_0000),
        exact(q) - exact(p) > exact(Double { bits: LEAST_EXTENT }),
    ensures
        exact(f_min(p, q)) == exact(p),
        exact(f_max(f_abs(f_sub(q, p)), Double { bits: LEAST_EXTENT })) == exact(q) - exact(p),
{
    let least = (Double { bits: LEAST_EXTENT });
    lemma_zero_value(least);
    lemma_order(p, q);
    lemma_sub(q, p, j, 0x8000_0000, 0x8000_0000);
    let d = f_sub(q, p);
    lemma_zero_value(d);
    assert(f_abs(d) == d);
    lemma_order(d, least);
}

/// What a node takes over of another one's style is what is listed, and no more: each of the
/// four parts goes by its own name.
pub proof fn law_listed_parts_are_taken_over(
    nodes: Seq<Node>,
    source: Node,
    listed: Vec<String>,
    k: usize,
)
    requires
        listed@.len() == 1,
    ensures
        ({
            let c = style_change(nodes, source, Some(listed), k);
            let only = listed@[0]@;
            &&& c.position == k
            &&& c.fill ==> only == "fill"@
            &&& c.stroke ==> only == "stroke"@
            &&& c.opacity is Some <==> only == "opacity"@
            &&& c.blend_mode is Some <==> only == "blend_mode"@
            &&& c.opacity matches Some(o) ==> o == source.opacity
            &&& c.blend_mode matches Some(m) ==> m == source.blend_mode
            &&& source.kind == NodeKind::Path && nodes[k as int].kind == NodeKind::Path ==> (c.fill
                <==> only == "fill"@) && (c.stroke <==> only == "stroke"@)
        }),
{
    assert(texts(listed@).len() == 1);
    assert(texts(listed@)[0] == listed@[0]@);
}

/// A look that is copied in one part changes that part alone.
pub proof fn law_copied_parts_are_the_chosen(
    nodes: Seq<Node>,
    source: Node,
    parts: AppearanceParts,
    k: usize,
)
    ensures
        ({
            let c = appearance_change(nodes, source, parts, k);
            let none = AppearanceParts { fill: false, stroke: false, opacity: false };
            &&& parts == (AppearanceParts { fill: true, ..none }) ==> !c.stroke && c.opacity is None
            &&& parts == (AppearanceParts { stroke: true, ..none }) ==> !c.fill && c.opacity is None
            &&& parts == (AppearanceParts { opacity: true, ..none }) ==> !c.fill && !c.stroke
                && c.opacity == Some(source.opacity)
            &&& parts.fill && source.kind == NodeKind::Path && nodes[k as int].kind
                == NodeKind::Path ==> c.fill
            &&& parts.stroke && source.kind == NodeKind::Path && nodes[k as int].kind
                == NodeKind::Path ==> c.stroke
        }),
{
}

/// Swapping the paints of a path with both twice brings back what it had.
pub proof fn law_swapping_twice_brings_back(node: Node, k: usize, bare: Double)
    requires
        node.kind == NodeKind::Path,
        node.fill is Solid,
        node.stroke_enabled,
        f_less(Double { bits: 0 }, node.stroke_width),
    ensures
        ({
            let once = repainted(node, swapped_paint(node, k), bare);
            let twice = repainted(once, swapped_paint(once, k), bare);
            &&& once.fill == Fill::Solid(node.stroke_color)
            &&& once.stroke_color == node.fill->Solid_0
            &&& twice.fill == node.fill
            &&& twice.stroke_color == node.stroke_color
            &&& twice.stroke_enabled
            &&& twice.stroke_width == node.stroke_width
        }),
{
}

/// A shadow stands off its node across by the first offset and down by the second.
pub proof fn law_shadow_stands_off(nodes: Seq<Node>, k: int, ox: Double, oy: Double, j: nat)
    requires
        is_plain(nodes[k].transform.e, j),
        is_plain(nodes[k].transform.f, j),
        is_plain(ox, j),
        is_plain(oy, j),
    ensures
        exact(shadow_of(nodes, k, ox, oy).2) == exact(nodes[k].transform.e) + exact(ox),
        exact(shadow_of(nodes, k, ox, oy).3) == exact(nodes[k].transform.f) + exact(oy),
{
    let m = nodes[k].transform;
    lemma_plain(m.e, j);
    lemma_plain(m.f, j);
    lemma_plain(ox, j);
    lemma_plain(oy, j);
    lemma_add(m.e, ox, j, 0x4000_0000, 0x4000_0000);
    lemma_add(m.f, oy, j, 0x4000_0000, 0x4000_0000);
}

/// Each channel of a random colour comes from a random number of its own, in the order of
/// the channels, and all from theirs in the same way.
pub proof fn law_random_channels_are_apart(v: Seq<Double>, w: Seq<Double>, i: int)
    ensures
        v[3 * i] == w[3 * i] ==> random_color(v, i).r == random_color(w, i).r,
        v[3 * i + 1] == w[3 * i + 1] ==> random_color(v, i).g == random_color(w, i).g,
        v[3 * i + 2] == w[3 * i + 2] ==> random_color(v, i).b == random_color(w, i).b,
        v[3 * i] == w[3 * i + 1] ==> random_color(v, i).r == random_color(w, i).g,
        v[3 * i] == w[3 * i + 2] ==> random_color(v, i).r == random_color(w, i).b,
{
}

/// A colour that is picked is one of the palette.
pub proof fn law_picked_colors_are_of_the_palette(palette: Seq<Color>, v: Double)
    requires
        palette.len() > 0,
    ensures
        palette.contains(picked(palette, v)),
{
    let at = truncated(f_mul(from_zero_to_one(v), whole(palette.len())), usize::MAX as nat);
    assert(0 <= at % palette.len() < palette.len());
}

/// Only what is asked for is painted at random, and a stroke only where there is one.
pub proof fn law_random_paints_go_where_asked(
    nodes: Seq<Node>,
    found: Seq<usize>,
    palette: Seq<Color>,
    picks: Seq<Double>,
    fill: bool,
    stroke: bool,
    n: nat,
    i: int,
)
    requires
        0 <= i < n <= found.len(),
        palette.len() > 0,
    ensures
        ({
            let r = random_paints(nodes, found, palette, picks, fill, stroke, n).0;
            &&& r.len() == n
            &&& r[i].position == found[i]
            &&& r[i].fill is Some <==> fill
            &&& r[i].stroke is Some <==> stroke && nodes[found[i] as int].kind == NodeKind::Path
                && nodes[found[i] as int].stroke_enabled
            &&& r[i].fill matches Some(c) ==> palette.contains(c)
            &&& r[i].stroke matches Some(c) ==> palette.contains(c)
        }),
    decreases n,
{
    let (before, used) = random_paints(
        nodes,
        found,
        palette,
        picks,
        fill,
        stroke,
        (n - 1) as nat,
    );
    if n > 1 {
        law_random_paints_go_where_asked(
            nodes,
            found,
            palette,
            picks,
            fill,
            stroke,
            (n - 1) as nat,
            if i < n - 1 {
                i
            } else {
                0
            },
        );
    } else {
        assert(random_paints(nodes, found, palette, picks, fill, stroke, 0).0.len() == 0);
    }
    let at = used + if fill {
        1nat
    } else {
        0
    };
    law_picked_colors_are_of_the_palette(palette, picks[used as int]);
    law_picked_colors_are_of_the_palette(palette, picks[at as int]);
}


/// A shadow of a shadow stands off that one, again across by the first offset and down by the
/// second, and is named after it.
pub proof fn law_shadow_of_a_shadow_stands_off(
    nodes: Seq<Node>,
    shadows: Seq<ShadowView>,
    name: Seq<char>,
    ox: Double,
    oy: Double,
    k: int,
    j: nat,
)
    requires
        named_id(nodes, name) is None,
        first_called(shadows, name) == Some(k),
        is_plain(shadows[k].2, j),
        is_plain(shadows[k].3, j),
        is_plain(ox, j),
        is_plain(oy, j),
    ensures
        next_shadow(nodes, shadows, name, ox, oy) matches Some(s) && exact(s.2) == exact(
            shadows[k].2,
        ) + exact(ox) && exact(s.3) == exact(shadows[k].3) + exact(oy) && s.1 == shadows[k].1
            + " Shadow"@,
{
    lemma_plain(shadows[k].2, j);
    lemma_plain(shadows[k].3, j);
    lemma_plain(ox, j);
    lemma_plain(oy, j);
    lemma_add(shadows[k].2, ox, j, 0x4000_0000, 0x4000_0000);
    lemma_add(shadows[k].3, oy, j, 0x4000_0000, 0x4000_0000);
}

} // verus!
