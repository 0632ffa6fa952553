//! Selecting the nodes that look like reference nodes.
use crate::double::Double;
use crate::float::{
    absolute, at_most, divided, f_abs, f_at_most, f_div, f_less, f_narrow, f_sub, from_count,
    lemma_self_difference, less, minus, narrowed, whole,
};
use crate::plan::holds;
use crate::recolor::exchanged;
use crate::scene::{find_node, is_node_at, resolve_targets, targets, Color, Fill, Node, NodeKind};
use crate::selection::{add_all_to_selection, base_selection, with_nodes, Selected};
use crate::steps::lemma_short_nothing;
use crate::text::{
    chars_of, decimal_text, eq_str, holds_text, number_text, push_all, push_str, split_on,
    split_str, text_of, texts, trim, trimmed,
};
use vstd::prelude::*;

verus! {

/// 0.01 as a number.
pub const WIDTH_STEP: u64 = 0x3f84_7ae1_47ae_147b;

/// 0.01 in the binary32 format.
pub const SHORT_STEP: u64 = 0x3f84_7ae1_4000_0000;

/// 255 as a number.
pub const CHANNEL_MAX: u64 = 0x406f_e000_0000_0000;

/// A tolerance from 0 to 255 as a share of the range of a channel.
pub open spec fn channel_tolerance(tolerance: u8) -> Double {
    f_narrow(f_div(f_narrow(whole(tolerance as nat)), (Double { bits: CHANNEL_MAX })))
}

/// The solid fill of a path or text, where it is shown.
pub open spec fn shown_fill(node: Node) -> Option<Color> {
    if (node.kind == NodeKind::Path || node.kind == NodeKind::Text) && node.fill_enabled {
        match node.fill {
            Fill::Solid(c) => Some(c),
            _ => None,
        }
    } else {
        None
    }
}

/// The node has a stroke that is shown.
pub open spec fn shows_stroke(node: Node) -> bool {
    (node.kind == NodeKind::Path || node.kind == NodeKind::Text) && node.stroke_enabled
}

/// No channel differs by more than the tolerance.
pub open spec fn channels_near(a: Color, b: Color, t: Double) -> bool {
    f_at_most(f_abs(f_narrow(f_sub(a.r, b.r))), t) && f_at_most(
        f_abs(f_narrow(f_sub(a.g, b.g))),
        t,
    ) && f_at_most(f_abs(f_narrow(f_sub(a.b, b.b))), t)
}

/// Node `k` is one of the reference nodes.
pub open spec fn is_reference(nodes: Seq<Node>, refs: Seq<u128>, k: int) -> bool {
    0 <= k < nodes.len() && refs.contains(nodes[k].id) && is_node_at(nodes, nodes[k].id, k)
}

/// The node has the fill of a reference node. A node without a shown fill has it
/// where no reference node shows a solid fill.
pub open spec fn fill_like(nodes: Seq<Node>, refs: Seq<u128>, node: Node, t: Double) -> bool {
    (node.kind == NodeKind::Path || node.kind == NodeKind::Text) && if node.fill_enabled {
        node.fill matches Fill::Solid(c) && exists|k: int| #[trigger]
            is_reference(nodes, refs, k) && (shown_fill(nodes[k]) matches Some(d)
                && channels_near(c, d, t))
    } else {
        forall|k: int| #[trigger] is_reference(nodes, refs, k) ==> shown_fill(nodes[k]) is None
    }
}

/// The node has the stroke colour of a reference node.
pub open spec fn stroke_like(nodes: Seq<Node>, refs: Seq<u128>, node: Node, t: Double) -> bool {
    shows_stroke(node) && exists|k: int| #[trigger]
        is_reference(nodes, refs, k) && shows_stroke(nodes[k]) && channels_near(
            node.stroke_color,
            nodes[k].stroke_color,
            t,
        )
}

/// The node has the stroke width of a reference node.
pub open spec fn width_like(nodes: Seq<Node>, refs: Seq<u128>, node: Node) -> bool {
    shows_stroke(node) && exists|k: int| #[trigger]
        is_reference(nodes, refs, k) && shows_stroke(nodes[k]) && f_less(
            f_abs(f_sub(node.stroke_width, nodes[k].stroke_width)),
            (Double { bits: WIDTH_STEP }),
        )
}

pub open spec fn kind_like(nodes: Seq<Node>, refs: Seq<u128>, node: Node) -> bool {
    exists|k: int| #[trigger] is_reference(nodes, refs, k) && nodes[k].kind == node.kind
}

pub open spec fn opacity_like(nodes: Seq<Node>, refs: Seq<u128>, node: Node) -> bool {
    exists|k: int| #[trigger]
        is_reference(nodes, refs, k) && f_less(
            f_abs(f_narrow(f_sub(node.opacity, nodes[k].opacity))),
            (Double { bits: SHORT_STEP }),
        )
}

/// Two nodes share a tag.
pub open spec fn share_tag(a: Node, b: Node) -> bool {
    exists|i: int| 0 <= i < b.tags.len() && texts(a.tags@).contains((#[trigger] b.tags@[i])@)
}

pub open spec fn tags_like(nodes: Seq<Node>, refs: Seq<u128>, node: Node) -> bool {
    exists|k: int| #[trigger] is_reference(nodes, refs, k) && share_tag(node, nodes[k])
}

/// The node meets a criterion; one that is not known is met by every node.
pub open spec fn meets(
    nodes: Seq<Node>,
    refs: Seq<u128>,
    node: Node,
    criterion: Seq<char>,
    t: Double,
) -> bool {
    if criterion == "fill_color"@ {
        fill_like(nodes, refs, node, t)
    } else if criterion == "stroke_color"@ {
        stroke_like(nodes, refs, node, t)
    } else if criterion == "stroke_width"@ {
        width_like(nodes, refs, node)
    } else if criterion == "kind"@ {
        kind_like(nodes, refs, node)
    } else if criterion == "opacity"@ {
        opacity_like(nodes, refs, node)
    } else if criterion == "tags"@ {
        tags_like(nodes, refs, node)
    } else {
        true
    }
}

/// The node meets all criteria of a list with commas.
pub open spec fn meets_all(
    nodes: Seq<Node>,
    refs: Seq<u128>,
    node: Node,
    match_by: Seq<char>,
    t: Double,
) -> bool {
    forall|i: int|
        0 <= i < split_on(match_by, ","@).len() ==> meets(
            nodes,
            refs,
            node,
            trim(#[trigger] split_on(match_by, ","@)[i]),
            t,
        )
}

/// The ids of the first `n` nodes that look like the reference nodes and are
/// none.
pub open spec fn similar_ids(
    nodes: Seq<Node>,
    refs: Seq<u128>,
    match_by: Seq<char>,
    t: Double,
    n: nat,
) -> Seq<u128>
    decreases n,
{
    if n == 0 {
        Seq::empty()
    } else {
        let before = similar_ids(nodes, refs, match_by, t, (n - 1) as nat);
        let node = nodes[n - 1];
        if !refs.contains(node.id) && meets_all(nodes, refs, node, match_by, t) {
            before.push(node.id)
        } else {
            before
        }
    }
}

/// The positions of the reference nodes.
fn reference_positions(nodes: &Vec<Node>, refs: &Vec<u128>) -> (r: Vec<usize>)
    ensures
        forall|k: int|
            is_reference(nodes@, refs@, k) <==> exists|i: int|
                0 <= i < r.len() && #[trigger] r@[i] == k,
{
    let mut out: Vec<usize> = Vec::new();
    let mut i: usize = 0;
    while i < nodes.len()
        invariant
            i <= nodes.len(),
            forall|k: int|
                0 <= k < i && is_reference(nodes@, refs@, k) ==> exists|j: int|
                    0 <= j < out.len() && #[trigger] out@[j] == k,
            forall|j: int|
                0 <= j < out.len() ==> is_reference(nodes@, refs@, (#[trigger] out@[j]) as int),
        decreases nodes.len() - i,
    {
        let id = nodes[i].id;
        let ghost before = out@;
        if holds(refs, id) {
            if let Some(k) = find_node(nodes, id) {
                if k == i {
                    out.push(i);
                    assert(out@[out.len() - 1] == i);
                    assert forall|m: int| 0 <= m < i && is_reference(nodes@, refs@, m) implies
                        exists|j: int| 0 <= j < out.len() && #[trigger] out@[j] == m by {
                        let j = choose|j: int| 0 <= j < before.len() && before[j] == m;
                        assert(out@[j] == m);
                    }
                } else {
                    assert(!is_reference(nodes@, refs@, i as int)) by {
                        assert(nodes@[k as int].id == id);
                    }
                }
            }
        }
        i += 1;
    }
    out
}

fn fill_of(node: &Node) -> (r: Option<Color>)
    ensures
        r == shown_fill(*node),
{
    if (node.kind == NodeKind::Path || node.kind == NodeKind::Text) && node.fill_enabled {
        match &node.fill {
            Fill::Solid(c) => Some(*c),
            _ => None,
        }
    } else {
        None
    }
}

fn are_near(a: Color, b: Color, t: Double) -> (r: bool)
    ensures
        r == channels_near(a, b, t),
{
    at_most(absolute(narrowed(minus(a.r, b.r))), t) && at_most(
        absolute(narrowed(minus(a.g, b.g))),
        t,
    ) && at_most(absolute(narrowed(minus(a.b, b.b))), t)
}

fn stroke_shown(node: &Node) -> (r: bool)
    ensures
        r == shows_stroke(*node),
{
    (node.kind == NodeKind::Path || node.kind == NodeKind::Text) && node.stroke_enabled
}

fn have_shared_tag(a: &Node, b: &Node) -> (r: bool)
    ensures
        r == share_tag(*a, *b),
{
    let mut i: usize = 0;
    while i < b.tags.len()
        invariant
            i <= b.tags.len(),
            forall|j: int| 0 <= j < i ==> !texts(a.tags@).contains((#[trigger] b.tags@[j])@),
        decreases b.tags.len() - i,
    {
        if holds_text(&a.tags, b.tags[i].as_str()) {
            assert(texts(a.tags@).contains(b.tags@[i as int]@));
            return true;
        }
        i += 1;
    }
    false
}

/// A criterion that is met by likeness to one reference node.
#[derive(Debug, Clone, Copy, PartialEq, Eq, Structural)]
enum Trait {
    Fill,
    NoFill,
    Stroke,
    Width,
    Kind,
    Opacity,
    Tags,
}

/// The node is like one reference node in this respect; for `NoFill`, that node
/// shows a solid fill.
spec fn like(node: Node, other: Node, by: Trait, t: Double) -> bool {
    match by {
        Trait::Fill => node.fill matches Fill::Solid(c) && (shown_fill(other) matches Some(d)
            && channels_near(c, d, t)),
        Trait::NoFill => shown_fill(other) is Some,
        Trait::Stroke => shows_stroke(other) && channels_near(
            node.stroke_color,
            other.stroke_color,
            t,
        ),
        Trait::Width => shows_stroke(other) && f_less(
            f_abs(f_sub(node.stroke_width, other.stroke_width)),
            (Double { bits: WIDTH_STEP }),
        ),
        Trait::Kind => other.kind == node.kind,
        Trait::Opacity => f_less(
            f_abs(f_narrow(f_sub(node.opacity, other.opacity))),
            (Double { bits: SHORT_STEP }),
        ),
        Trait::Tags => share_tag(node, other),
    }
}

fn is_like(node: &Node, other: &Node, by: Trait, t: Double) -> (r: bool)
    ensures
        r == like(*node, *other, by, t),
{
    match by {
        Trait::Fill => match &node.fill {
            Fill::Solid(c) => match fill_of(other) {
                Some(d) => are_near(*c, d, t),
                None => false,
            },
            _ => false,
        },
        Trait::NoFill => fill_of(other).is_some(),
        Trait::Stroke => stroke_shown(other) && are_near(node.stroke_color, other.stroke_color, t),
        Trait::Width => stroke_shown(other) && less(
            absolute(minus(node.stroke_width, other.stroke_width)),
            (Double { bits: WIDTH_STEP }),
        ),
        Trait::Kind => other.kind == node.kind,
        Trait::Opacity => less(
            absolute(narrowed(minus(node.opacity, other.opacity))),
            (Double { bits: SHORT_STEP }),
        ),
        Trait::Tags => have_shared_tag(node, other),
    }
}

fn like_any(nodes: &Vec<Node>, places: &Vec<usize>, node: &Node, by: Trait, t: Double, refs: Ghost<
    Seq<u128>,
>) -> (r: bool)
    requires
        forall|k: int|
            is_reference(nodes@, refs@, k) <==> exists|i: int|
                0 <= i < places.len() && #[trigger] places@[i] == k,
    ensures
        r == exists|k: int| #[trigger]
            is_reference(nodes@, refs@, k) && like(*node, nodes@[k], by, t),
{
    let mut i: usize = 0;
    while i < places.len()
        invariant
            i <= places.len(),
            forall|k: int|
                is_reference(nodes@, refs@, k) <==> exists|i: int|
                    0 <= i < places.len() && #[trigger] places@[i] == k,
            forall|j: int|
                0 <= j < i ==> !like(*node, nodes@[(#[trigger] places@[j]) as int], by, t),
        decreases places.len() - i,
    {
        let k: usize = places[i];
        proof {
            assert(places@[i as int] == k);
            assert(is_reference(nodes@, refs@, k as int));
        }
        if is_like(node, &nodes[k], by, t) {
            return true;
        }
        i += 1;
    }
    proof {
        assert forall|k: int| #[trigger] is_reference(nodes@, refs@, k) implies !like(
            *node,
            nodes@[k],
            by,
            t,
        ) by {
            let j = choose|j: int| 0 <= j < places.len() && places@[j] == k;
            assert(!like(*node, nodes@[places@[j] as int], by, t));
        }
    }
    false
}

fn does_meet(
    nodes: &Vec<Node>,
    places: &Vec<usize>,
    node: &Node,
    criterion: &Vec<char>,
    t: Double,
    refs: Ghost<Seq<u128>>,
) -> (r: bool)
    requires
        forall|k: int|
            is_reference(nodes@, refs@, k) <==> exists|i: int|
                0 <= i < places.len() && #[trigger] places@[i] == k,
    ensures
        r == meets(nodes@, refs@, *node, criterion@, t),
{
    let drawn = node.kind == NodeKind::Path || node.kind == NodeKind::Text;
    if eq_str(criterion, "fill_color") {
        let like_fill = like_any(nodes, places, node, Trait::Fill, t, refs);
        let some_fill = like_any(nodes, places, node, Trait::NoFill, t, refs);
        proof {
            if !some_fill {
                assert forall|k: int| #[trigger] is_reference(nodes@, refs@, k) implies shown_fill(
                    nodes@[k],
                ) is None by {
                    assert(!like(*node, nodes@[k], Trait::NoFill, t));
                }
            }
        }
        drawn && if node.fill_enabled {
            like_fill
        } else {
            !some_fill
        }
    } else if eq_str(criterion, "stroke_color") {
        drawn && node.stroke_enabled && like_any(nodes, places, node, Trait::Stroke, t, refs)
    } else if eq_str(criterion, "stroke_width") {
        drawn && node.stroke_enabled && like_any(nodes, places, node, Trait::Width, t, refs)
    } else if eq_str(criterion, "kind") {
        like_any(nodes, places, node, Trait::Kind, t, refs)
    } else if eq_str(criterion, "opacity") {
        like_any(nodes, places, node, Trait::Opacity, t, refs)
    } else if eq_str(criterion, "tags") {
        like_any(nodes, places, node, Trait::Tags, t, refs)
    } else {
        true
    }
}

fn does_meet_all(
    nodes: &Vec<Node>,
    places: &Vec<usize>,
    node: &Node,
    criteria: &Vec<Vec<char>>,
    t: Double,
    refs: Ghost<Seq<u128>>,
    match_by: Ghost<Seq<char>>,
) -> (r: bool)
    requires
        forall|k: int|
            is_reference(nodes@, refs@, k) <==> exists|i: int|
                0 <= i < places.len() && #[trigger] places@[i] == k,
        criteria@.map_values(|w: Vec<char>| w@) == split_on(match_by@, ","@),
    ensures
        r == meets_all(nodes@, refs@, *node, match_by@, t),
{
    let ghost parts = split_on(match_by@, ","@);
    let mut i: usize = 0;
    while i < criteria.len()
        invariant
            i <= criteria.len(),
            parts == split_on(match_by@, ","@),
            criteria@.map_values(|w: Vec<char>| w@) == parts,
            forall|k: int|
                is_reference(nodes@, refs@, k) <==> exists|i: int|
                    0 <= i < places.len() && #[trigger] places@[i] == k,
            forall|j: int|
                0 <= j < i ==> meets(nodes@, refs@, *node, trim(#[trigger] parts[j]), t),
        decreases criteria.len() - i,
    {
        let criterion = trimmed(&criteria[i]);
        assert(parts[i as int] == criteria@[i as int]@);
        if !does_meet(nodes, places, node, &criterion, t, refs) {
            return false;
        }
        i += 1;
    }
    assert(parts.len() == criteria.len());
    true
}

/// What is compared where the caller does not say.
pub open spec fn criteria_text(match_by: Option<&str>) -> Seq<char> {
    match match_by {
        Some(s) => s@,
        None => "fill_color"@,
    }
}

pub open spec fn tolerance_value(tolerance: Option<u8>) -> u8 {
    match tolerance {
        Some(t) => t,
        None => 5,
    }
}

/// Selects the nodes that look like the reference nodes, and the reference nodes
/// themselves. The first result is how many were found besides them.
pub fn select_similar(
    nodes: &Vec<Node>,
    selection: &Vec<u128>,
    names: &Vec<String>,
    match_by: Option<&str>,
    tolerance: Option<u8>,
    additive: bool,
) -> (r: Result<(usize, Selected), String>)
    ensures
        ({
            let refs = targets(nodes@, selection@, texts(names@));
            let by = criteria_text(match_by);
            let tol = tolerance_value(tolerance);
            let ids = similar_ids(nodes@, refs, by, channel_tolerance(tol), nodes@.len());
            match r {
                Err(e) => refs.len() == 0 && e@
                    == "No reference nodes — pass node_ids or make a selection first"@,
                Ok((n, s)) => {
                    &&& refs.len() > 0
                    &&& n == ids.len()
                    &&& s.selection@ == with_nodes(
                        with_nodes(base_selection(selection@, additive), ids),
                        refs,
                    )
                    &&& s.count == s.selection@.len()
                    &&& s.message@ == "Selected "@ + decimal_text(s.selection@.len())
                        + " node(s) matching "@ + by + " (tolerance="@ + decimal_text(tol as nat)
                        + ")"@
                },
            }
        }),
{
    proof {
        reveal_strlit(",");
    }
    let refs = resolve_targets(nodes, selection, names);
    if refs.len() == 0 {
        return Err("No reference nodes — pass node_ids or make a selection first".to_owned());
    }
    let by = match match_by {
        Some(s) => s,
        None => "fill_color",
    };
    let tol: u8 = match tolerance {
        Some(t) => t,
        None => 5,
    };
    let t = narrowed(
        divided(narrowed(from_count(tol as u64)), (Double { bits: CHANNEL_MAX })),
    );
    let criteria = split_str(&chars_of(by), ",");
    let places = reference_positions(nodes, &refs);
    let mut ids: Vec<u128> = Vec::new();
    let mut i: usize = 0;
    while i < nodes.len()
        invariant
            i <= nodes.len(),
            criteria@.map_values(|w: Vec<char>| w@) == split_on(by@, ","@),
            forall|k: int|
                is_reference(nodes@, refs@, k) <==> exists|i: int|
                    0 <= i < places.len() && #[trigger] places@[i] == k,
            ids@ == similar_ids(nodes@, refs@, by@, t, i as nat),
        decreases nodes.len() - i,
    {
        if !holds(&refs, nodes[i].id) && does_meet_all(
            nodes,
            &places,
            &nodes[i],
            &criteria,
            t,
            Ghost(refs@),
            Ghost(by@),
        ) {
            ids.push(nodes[i].id);
        }
        i += 1;
    }
    let mut out: Vec<u128> = if additive {
        crate::scene::copy_ids(selection)
    } else {
        Vec::new()
    };
    assert(out@ =~= base_selection(selection@, additive));
    add_all_to_selection(&mut out, &ids);
    add_all_to_selection(&mut out, &refs);
    let mut v = chars_of("Selected ");
    push_all(&mut v, &number_text(out.len() as u64));
    push_str(&mut v, " node(s) matching ");
    push_str(&mut v, by);
    push_str(&mut v, " (tolerance=");
    push_all(&mut v, &number_text(tol as u64));
    push_str(&mut v, ")");
    let n: usize = out.len();
    Ok((ids.len(), Selected { selection: out, count: n, message: text_of(&v) }))
}

/// No reference node is counted as found besides the reference nodes.
pub proof fn law_similar_are_new(
    nodes: Seq<Node>,
    refs: Seq<u128>,
    match_by: Seq<char>,
    t: Double,
    n: nat,
)
    requires
        n <= nodes.len(),
    ensures
        forall|i: int|
            0 <= i < similar_ids(nodes, refs, match_by, t, n).len() ==> !refs.contains(
                #[trigger] similar_ids(nodes, refs, match_by, t, n)[i],
            ),
    decreases n,
{
    if n > 0 {
        law_similar_are_new(nodes, refs, match_by, t, (n - 1) as nat);
        let before = similar_ids(nodes, refs, match_by, t, (n - 1) as nat);
        let all = similar_ids(nodes, refs, match_by, t, n);
        assert forall|i: int| 0 <= i < all.len() implies !refs.contains(#[trigger] all[i]) by {
            if i < before.len() {
                assert(all[i] == before[i]);
            }
        }
    }
}


/// Red, green and blue are compared alike, and the opacity of a colour is not compared.
pub proof fn law_compared_channels_are_treated_alike(
    a: Color,
    b: Color,
    t: Double,
    which: int,
    x: Double,
)
    ensures
        0 <= which < 2 ==> channels_near(exchanged(a, which), exchanged(b, which), t)
            == channels_near(a, b, t),
        channels_near(Color { a: x, ..a }, b, t) == channels_near(a, b, t),
{
}

/// A colour is near itself, and where two are near each other, a channel that is exchanged
/// for that of the other one leaves them near.
pub proof fn law_near_colors_stay_near(a: Color, b: Color, t: Double)
    requires
        a.r.wf(),
        a.g.wf(),
        a.b.wf(),
        t.wf(),
        t.key() >= 0,
    ensures
        channels_near(a, a, t),
        channels_near(a, b, t) ==> channels_near(a, Color { r: a.r, ..b }, t) && channels_near(
            a,
            Color { g: a.g, ..b },
            t,
        ) && channels_near(a, Color { b: a.b, ..b }, t),
{
    lemma_self_difference(a.r);
    lemma_self_difference(a.g);
    lemma_self_difference(a.b);
    lemma_short_nothing();
}

/// Each criterion looks at what it names alone: two nodes that agree in that meet it both or
/// not at all.
pub proof fn law_criteria_look_at_what_they_name(
    nodes: Seq<Node>,
    refs: Seq<u128>,
    a: Node,
    b: Node,
    t: Double,
)
    ensures
        a.kind == b.kind ==> meets(nodes, refs, a, "kind"@, t) == meets(nodes, refs, b, "kind"@, t),
        a.opacity == b.opacity ==> meets(nodes, refs, a, "opacity"@, t) == meets(
            nodes,
            refs,
            b,
            "opacity"@,
            t,
        ),
        a.tags == b.tags ==> meets(nodes, refs, a, "tags"@, t) == meets(nodes, refs, b, "tags"@, t),
        a.kind == b.kind && a.stroke_enabled == b.stroke_enabled && a.stroke_width
            == b.stroke_width ==> meets(nodes, refs, a, "stroke_width"@, t) == meets(
            nodes,
            refs,
            b,
            "stroke_width"@,
            t,
        ),
        a.kind == b.kind && a.stroke_enabled == b.stroke_enabled && a.stroke_color
            == b.stroke_color ==> meets(nodes, refs, a, "stroke_color"@, t) == meets(
            nodes,
            refs,
            b,
            "stroke_color"@,
            t,
        ),
        a.kind == b.kind && a.fill_enabled == b.fill_enabled && a.fill == b.fill ==> meets(
            nodes,
            refs,
            a,
            "fill_color"@,
            t,
        ) == meets(nodes, refs, b, "fill_color"@, t),
{
    reveal_strlit("fill_color");
    reveal_strlit("stroke_color");
    reveal_strlit("stroke_width");
    reveal_strlit("kind");
    reveal_strlit("opacity");
    reveal_strlit("tags");
    assert("stroke_color"@[7] == 'c' && "stroke_width"@[7] == 'w');
    assert("kind"@[0] == 'k' && "tags"@[0] == 't');
    assert("fill_color"@.len() == 10 && "stroke_color"@.len() == 12 && "stroke_width"@.len() == 12);
    assert("kind"@.len() == 4 && "opacity"@.len() == 7 && "tags"@.len() == 4);
    if a.kind == b.kind && a.stroke_enabled == b.stroke_enabled && a.stroke_width
        == b.stroke_width {
        assert(width_like(nodes, refs, a) == width_like(nodes, refs, b));
    }
}

} // verus!
