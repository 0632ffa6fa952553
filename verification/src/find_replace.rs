//! Find and replace: styles and texts across the document.
use vstd::arithmetic::div_mod::lemma_fundamental_div_mod_converse;
use crate::bignum::{lemma_power_add, lemma_power_positive, power};
use crate::double::{exponent, mantissa, units, Double, BINADE, INFINITE};
use crate::float::{
    abs, absolute, at_most, clamped, divided, exact, f_abs, f_add, f_at_most, f_clamp, f_div,
    f_less, f_mul, f_narrow, f_neg, f_same, f_sqrt, f_sub, is_root, lemma_root_below,
    lemma_rounded_exists, lemma_rounded_scaled, lemma_self_difference, lemma_whole, less, minus,
    narrowed, one_units, plus, root_reaches, same, square_root, times, twice_middle, whole,
    LEAST_NORMAL_SINGLE, SINGLE_LIMIT, TINY_SHIFT,
};
use crate::scene::{
    around_text, count_text, counted, has_node, Color, ColorArg, Fill, Node, NodeKind,
};
use crate::selection::{find_positions, lowercase, lowered, positions_of};
use crate::steps::{
    lemma_difference_mirrors, lemma_neg, lemma_one, lemma_order, lemma_plus_nothing,
    lemma_product_commutes, lemma_product_keeps_order, lemma_product_mirrors, lemma_product_sign,
    lemma_rounding_keeps_order, lemma_rounding_mirrors, lemma_short_at_least, lemma_short_bounds,
    lemma_short_nothing, lemma_short_stays, lemma_sum_commutes, lemma_sum_grows,
    lemma_sum_keeps_order, lemma_sum_value, lemma_times_nothing, lemma_times_one, lemma_two_to,
    lemma_value_stays, lemma_zero_value,
};
use crate::text::{joined, option_text, same_text};
use vstd::prelude::*;

verus! {

/// 1e-4 in the binary32 format.
pub const OPACITY_STEP: u64 = 0x3f1a_36e2_e000_0000;

/// 1e-9 as a number.
pub const WIDTH_SLACK: u64 = 0x3e11_2e0b_e826_d695;

/// 1 as a number.
pub const UNIT: u64 = 0x3ff0_0000_0000_0000;

/// 3 as a number.
pub const THREE: u64 = 0x4008_0000_0000_0000;

/// What is sought, what it is replaced by, and where.
#[derive(Debug)]
pub struct FindReplaceStyleArgs {
    pub fill_color: Option<ColorArg>,
    pub stroke_color: Option<ColorArg>,
    pub stroke_width: Option<Double>,
    pub font_family: Option<String>,
    pub new_fill_color: Option<ColorArg>,
    pub new_stroke_color: Option<ColorArg>,
    pub new_opacity: Option<Double>,
    pub new_stroke_width: Option<Double>,
    pub new_font_family: Option<String>,
    pub color_tolerance: Option<Double>,
    pub node_ids: Option<Vec<u128>>,
    pub layer_id: Option<u128>,
    pub dry_run: bool,
}

/// What is changed on a node, from what and to what. The names of the font
/// families stand in the edit.
#[derive(Debug, Clone, Copy, PartialEq, Eq, Structural)]
pub enum Change {
    Fill { from: Color, to: Color },
    GradientStop { index: usize, from: Color, to: Color },
    FluidPoint { index: usize, from: Color, to: Color },
    MeshCell { index: usize, from: Color, to: Color },
    Stroke { from: Color, to: Color },
    StrokeWidth { was: Double, becomes: Double },
    FontFamily,
    Opacity { was: Double, becomes: Double },
}

/// A difference in the binary32 format.
pub open spec fn short_difference(a: Double, b: Double) -> Double {
    f_narrow(f_sub(a, b))
}

pub open spec fn short_product(a: Double, b: Double) -> Double {
    f_narrow(f_mul(a, b))
}

pub open spec fn short_sum(a: Double, b: Double) -> Double {
    f_narrow(f_add(a, b))
}

/// The distance of two colours: the root of the mean of the squared differences
/// of their channels, from 0 to 1, in the binary32 format.
pub open spec fn color_gap(a: Color, b: Color) -> Double {
    let dr = short_difference(a.r, b.r);
    let dg = short_difference(a.g, b.g);
    let db = short_difference(a.b, b.b);
    let total = short_sum(
        short_sum(short_product(dr, dr), short_product(dg, dg)),
        short_product(db, db),
    );
    f_narrow(f_sqrt(f_narrow(f_div(total, (Double { bits: THREE })))))
}

pub fn color_gap_of(a: Color, b: Color) -> (r: Double)
    ensures
        r == color_gap(a, b),
{
    let dr = narrowed(minus(a.r, b.r));
    let dg = narrowed(minus(a.g, b.g));
    let db = narrowed(minus(a.b, b.b));
    let total = narrowed(
        plus(
            narrowed(plus(narrowed(times(dr, dr)), narrowed(times(dg, dg)))),
            narrowed(times(db, db)),
        ),
    );
    narrowed(square_root(narrowed(divided(total, (Double { bits: THREE })))))
}

/// The tolerance, kept from 0 to 1.
pub open spec fn style_tolerance(args: FindReplaceStyleArgs) -> Double {
    let zero = (Double { bits: 0 });
    f_clamp(
        match args.color_tolerance {
            Some(t) => t,
            None => zero,
        },
        zero,
        (Double { bits: UNIT }),
    )
}

/// The colours are within the tolerance.
pub open spec fn is_near(a: Color, b: Color, tolerance: Double) -> bool {
    f_at_most(color_gap(a, b), tolerance)
}

/// The width is within the tolerance, which counts as a share of the width that
/// is sought; without a tolerance only rounding errors are allowed.
pub open spec fn is_width_near(width: Double, target: Double, tolerance: Double) -> bool {
    let slack = if f_same(tolerance, (Double { bits: 0 })) {
        Double { bits: WIDTH_SLACK }
    } else {
        f_mul(target, tolerance)
    };
    f_at_most(f_abs(f_sub(width, target)), slack)
}

/// The change of the colour at a place of a fill.
pub open spec fn fill_change(fill: Fill, index: usize, to: Color) -> Change {
    match fill {
        Fill::Gradient(cs) => Change::GradientStop { index, from: cs@[index as int], to },
        Fill::Fluid(cs) => Change::FluidPoint { index, from: cs@[index as int], to },
        Fill::Mesh(cs) => Change::MeshCell { index, from: cs@[index as int], to },
        Fill::Solid(c) => Change::Fill { from: c, to },
        Fill::Other => Change::Fill { from: to, to },
    }
}

/// The colours of a fill, in their order.
pub open spec fn fill_colors(fill: Fill) -> Seq<Color> {
    match fill {
        Fill::Solid(c) => seq![c],
        Fill::Gradient(cs) => cs@,
        Fill::Fluid(cs) => cs@,
        Fill::Mesh(cs) => cs@,
        Fill::Other => Seq::empty(),
    }
}

/// The places of the first `n` colours that are near the target.
pub open spec fn near_places(
    colors: Seq<Color>,
    target: Color,
    tolerance: Double,
    n: nat,
) -> Seq<usize>
    decreases n,
{
    if n == 0 {
        Seq::empty()
    } else {
        let before = near_places(colors, target, tolerance, (n - 1) as nat);
        if is_near(colors[n - 1], target, tolerance) {
            before.push((n - 1) as usize)
        } else {
            before
        }
    }
}

/// The places of the fill of a path or a text whose colours are near the target.
pub open spec fn fill_hits(node: Node, target: Color, tolerance: Double) -> Seq<usize> {
    if node.kind == NodeKind::Path || node.kind == NodeKind::Text {
        let colors = fill_colors(node.fill);
        near_places(colors, target, tolerance, colors.len())
    } else {
        Seq::empty()
    }
}

pub open spec fn has_stroke(node: Node) -> bool {
    (node.kind == NodeKind::Path || node.kind == NodeKind::Text) && node.stroke_enabled
}

/// The colour that an argument stands for.
pub open spec fn arg_color(a: Option<ColorArg>) -> Option<Color> {
    match a {
        Some(c) => c.color,
        None => None,
    }
}

pub open spec fn fill_hits_of(node: Node, args: FindReplaceStyleArgs) -> Seq<usize> {
    match arg_color(args.fill_color) {
        Some(target) => fill_hits(node, target, style_tolerance(args)),
        None => Seq::empty(),
    }
}

pub open spec fn stroke_hit(node: Node, args: FindReplaceStyleArgs) -> bool {
    arg_color(args.stroke_color) matches Some(target) && has_stroke(node) && is_near(
        node.stroke_color,
        target,
        style_tolerance(args),
    )
}

pub open spec fn width_hit(node: Node, args: FindReplaceStyleArgs) -> bool {
    args.stroke_width matches Some(target) && has_stroke(node) && is_width_near(
        node.stroke_width,
        target,
        style_tolerance(args),
    )
}

/// Families are compared whatever the case, on texts only.
pub open spec fn font_hit(node: Node, args: FindReplaceStyleArgs) -> bool {
    args.font_family matches Some(family) && node.kind == NodeKind::Text && lowered(
        node.font_family@,
    ) == lowered(family@)
}

/// The node matches any of what is sought.
pub open spec fn style_hit(node: Node, args: FindReplaceStyleArgs) -> bool {
    fill_hits_of(node, args).len() > 0 || stroke_hit(node, args) || width_hit(node, args)
        || font_hit(node, args)
}

/// The opacity that is set.
pub open spec fn wanted_opacity(o: Double) -> Double {
    f_clamp(o, (Double { bits: 0 }), (Double { bits: UNIT }))
}

/// The opacity of a matching node differs noticeably from the one that is set.
pub open spec fn opacity_change(node: Node, args: FindReplaceStyleArgs) -> bool {
    args.new_opacity matches Some(o) && style_hit(node, args) && f_less(
        (Double { bits: OPACITY_STEP }),
        f_abs(short_difference(node.opacity, wanted_opacity(o))),
    )
}

/// `s` with `c` behind it where `when` holds.
pub open spec fn and_then(s: Seq<Change>, when: bool, c: Change) -> Seq<Change> {
    if when {
        s.push(c)
    } else {
        s
    }
}

/// What is changed on a node: every matching place for which there is a
/// replacement, and the opacity of a node that matches at all.
pub open spec fn style_changes(node: Node, args: FindReplaceStyleArgs) -> Seq<Change> {
    let hits = fill_hits_of(node, args);
    let fills = match arg_color(args.new_fill_color) {
        Some(to) => Seq::new(hits.len(), |i: int| fill_change(node.fill, hits[i], to)),
        None => Seq::empty(),
    };
    let strokes = match arg_color(args.new_stroke_color) {
        Some(to) => and_then(
            fills,
            stroke_hit(node, args),
            (Change::Stroke { from: node.stroke_color, to }),
        ),
        None => fills,
    };
    let widths = match args.new_stroke_width {
        Some(to) => and_then(
            strokes,
            width_hit(node, args),
            (Change::StrokeWidth { was: node.stroke_width, becomes: to }),
        ),
        None => strokes,
    };
    let fonts = and_then(widths, font_change(node, args), Change::FontFamily);
    match args.new_opacity {
        Some(o) => and_then(
            fonts,
            opacity_change(node, args),
            (Change::Opacity { was: node.opacity, becomes: wanted_opacity(o) }),
        ),
        None => fonts,
    }
}

/// The font family of the node is replaced.
pub open spec fn font_change(node: Node, args: FindReplaceStyleArgs) -> bool {
    font_hit(node, args) && args.new_font_family is Some
}

/// The old and the new font family, where it is replaced.
pub open spec fn family_change(node: Node, args: FindReplaceStyleArgs) -> Option<
    (Seq<char>, Seq<char>),
> {
    if font_change(node, args) {
        Some((node.font_family@, args.new_font_family->0@))
    } else {
        None
    }
}

/// A colour that is given but is none.
pub open spec fn bad_color(a: Option<ColorArg>) -> bool {
    a matches Some(c) && c.color is None
}

/// The text of a colour.
pub open spec fn color_words(a: Option<ColorArg>) -> Seq<char> {
    match a {
        Some(c) => c.text@,
        None => Seq::empty(),
    }
}

/// Why a request is refused, in the order in which it is asked.
pub open spec fn style_error(args: FindReplaceStyleArgs) -> Option<Seq<char>> {
    if bad_color(args.fill_color) {
        Some("Invalid fill_color: '"@ + color_words(args.fill_color) + "'"@)
    } else if bad_color(args.stroke_color) {
        Some("Invalid stroke_color: '"@ + color_words(args.stroke_color) + "'"@)
    } else if args.fill_color is None && args.stroke_color is None && args.stroke_width is None
        && args.font_family is None {
        Some(
            "At least one search criterion must be specified: fill_color, stroke_color, stroke_width, or font_family"@,
        )
    } else if args.new_fill_color is None && args.new_stroke_color is None && args.new_opacity
        is None && args.new_stroke_width is None && args.new_font_family is None {
        Some(
            "At least one replacement must be specified: new_fill_color, new_stroke_color, new_opacity, new_stroke_width, or new_font_family"@,
        )
    } else if bad_color(args.new_fill_color) {
        Some("Invalid new_fill_color: '"@ + color_words(args.new_fill_color) + "'"@)
    } else if bad_color(args.new_stroke_color) {
        Some("Invalid new_stroke_color: '"@ + color_words(args.new_stroke_color) + "'"@)
    } else {
        None
    }
}

fn invalid_color(what: &str, a: &Option<ColorArg>) -> (r: Option<String>)
    ensures
        match r {
            Some(e) => bad_color(*a) && e@ == what@ + color_words(*a) + "'"@,
            None => !bad_color(*a),
        },
{
    match a {
        None => None,
        Some(c) => if c.color.is_none() {
            Some(around_text(what, c.text.as_str(), "'"))
        } else {
            None
        },
    }
}

fn check_style(args: &FindReplaceStyleArgs) -> (r: Option<String>)
    ensures
        option_text(r) == style_error(*args),
{
    if let Some(e) = invalid_color("Invalid fill_color: '", &args.fill_color) {
        return Some(e);
    }
    if let Some(e) = invalid_color("Invalid stroke_color: '", &args.stroke_color) {
        return Some(e);
    }
    if args.fill_color.is_none() && args.stroke_color.is_none() && args.stroke_width.is_none()
        && args.font_family.is_none() {
        return Some(
            "At least one search criterion must be specified: fill_color, stroke_color, stroke_width, or font_family".to_owned(),
        );
    }
    if args.new_fill_color.is_none() && args.new_stroke_color.is_none()
        && args.new_opacity.is_none() && args.new_stroke_width.is_none()
        && args.new_font_family.is_none() {
        return Some(
            "At least one replacement must be specified: new_fill_color, new_stroke_color, new_opacity, new_stroke_width, or new_font_family".to_owned(),
        );
    }
    if let Some(e) = invalid_color("Invalid new_fill_color: '", &args.new_fill_color) {
        return Some(e);
    }
    invalid_color("Invalid new_stroke_color: '", &args.new_stroke_color)
}

fn near(a: Color, b: Color, tolerance: Double) -> (r: bool)
    ensures
        r == is_near(a, b, tolerance),
{
    at_most(color_gap_of(a, b), tolerance)
}

/// Every place is one of `n`.
pub open spec fn below(places: Seq<usize>, n: nat) -> bool {
    forall|i: int| 0 <= i < places.len() ==> (#[trigger] places[i]) < n
}

fn push_near(out: &mut Vec<usize>, colors: &Vec<Color>, target: Color, tolerance: Double)
    ensures
        final(out)@ == old(out)@ + near_places(colors@, target, tolerance, colors@.len()),
        below(old(out)@, colors@.len()) ==> below(final(out)@, colors@.len()),
{
    let ghost start = out@;
    let mut i: usize = 0;
    assert(out@ =~= start + near_places(colors@, target, tolerance, 0));
    while i < colors.len()
        invariant
            i <= colors.len(),
            out@ == start + near_places(colors@, target, tolerance, i as nat),
            below(start, colors@.len()) ==> below(out@, colors@.len()),
        decreases colors.len() - i,
    {
        if near(colors[i], target, tolerance) {
            out.push(i);
        }
        i += 1;
        assert(out@ =~= start + near_places(colors@, target, tolerance, i as nat));
    }
}

fn find_fill_hits(node: &Node, target: Color, tolerance: Double) -> (r: Vec<usize>)
    ensures
        r@ == fill_hits(*node, target, tolerance),
        below(r@, fill_colors(node.fill).len()),
{
    let mut out: Vec<usize> = Vec::new();
    if node.kind == NodeKind::Path || node.kind == NodeKind::Text {
        match &node.fill {
            Fill::Solid(c) => {
                proof {
                    reveal_with_fuel(near_places, 2);
                }
                if near(*c, target, tolerance) {
                    out.push(0);
                }
            },
            Fill::Gradient(cs) => push_near(&mut out, cs, target, tolerance),
            Fill::Fluid(cs) => push_near(&mut out, cs, target, tolerance),
            Fill::Mesh(cs) => push_near(&mut out, cs, target, tolerance),
            Fill::Other => {},
        }
    }
    assert(out@ =~= fill_hits(*node, target, tolerance));
    out
}

fn fill_change_at(fill: &Fill, index: usize, to: Color) -> (r: Change)
    requires
        index < fill_colors(*fill).len(),
    ensures
        r == fill_change(*fill, index, to),
{
    match fill {
        Fill::Gradient(cs) => Change::GradientStop { index, from: cs[index], to },
        Fill::Fluid(cs) => Change::FluidPoint { index, from: cs[index], to },
        Fill::Mesh(cs) => Change::MeshCell { index, from: cs[index], to },
        Fill::Solid(c) => Change::Fill { from: *c, to },
        Fill::Other => Change::Fill { from: to, to },
    }
}

/// The changes of a fill at the places that were found.
fn fill_changes(node: &Node, hits: &Vec<usize>, to: Color) -> (r: Vec<Change>)
    requires
        below(hits@, fill_colors(node.fill).len()),
    ensures
        r@ == Seq::new(hits@.len(), |i: int| fill_change(node.fill, hits@[i], to)),
{
    let ghost goal = Seq::new(hits@.len(), |i: int| fill_change(node.fill, hits@[i], to));
    let mut out: Vec<Change> = Vec::new();
    let mut i: usize = 0;
    while i < hits.len()
        invariant
            i <= hits.len(),
            below(hits@, fill_colors(node.fill).len()),
            goal == Seq::new(hits@.len(), |i: int| fill_change(node.fill, hits@[i], to)),
            out@ == goal.take(i as int),
        decreases hits.len() - i,
    {
        out.push(fill_change_at(&node.fill, hits[i], to));
        i += 1;
        assert(out@ =~= goal.take(i as int));
    }
    assert(goal.take(hits@.len() as int) =~= goal);
    out
}

/// The colour that an argument stands for.
pub fn color_of(a: &Option<ColorArg>) -> (r: Option<Color>)
    ensures
        r == arg_color(*a),
{
    match a {
        Some(c) => c.color,
        None => None,
    }
}

fn tolerance_of(args: &FindReplaceStyleArgs) -> (r: Double)
    ensures
        r == style_tolerance(*args),
{
    let zero = Double { bits: 0 };
    clamped(
        match args.color_tolerance {
            Some(t) => t,
            None => zero,
        },
        zero,
        (Double { bits: UNIT }),
    )
}

fn width_near(width: Double, target: Double, tolerance: Double) -> (r: bool)
    ensures
        r == is_width_near(width, target, tolerance),
{
    let slack = if same(tolerance, (Double { bits: 0 })) {
        Double { bits: WIDTH_SLACK }
    } else {
        times(target, tolerance)
    };
    at_most(absolute(minus(width, target)), slack)
}

/// What is changed on a node, and whether its font family is.
fn find_changes(node: &Node, args: &FindReplaceStyleArgs) -> (r: (Vec<Change>, bool))
    ensures
        r.0@ == style_changes(*node, *args),
        r.1 == font_change(*node, *args),
{
    let tolerance = tolerance_of(args);
    let hits = match color_of(&args.fill_color) {
        Some(target) => find_fill_hits(node, target, tolerance),
        None => Vec::new(),
    };
    assert(hits@ =~= fill_hits_of(*node, *args));
    let stroked = (node.kind == NodeKind::Path || node.kind == NodeKind::Text)
        && node.stroke_enabled;
    let stroke = match color_of(&args.stroke_color) {
        Some(target) => stroked && near(node.stroke_color, target, tolerance),
        None => false,
    };
    let width = match args.stroke_width {
        Some(target) => stroked && width_near(node.stroke_width, target, tolerance),
        None => false,
    };
    let font = match &args.font_family {
        Some(family) => node.kind == NodeKind::Text && same_text(
            lowercase(node.font_family.as_str()).as_str(),
            lowercase(family.as_str()).as_str(),
        ),
        None => false,
    };
    let any = hits.len() > 0 || stroke || width || font;
    let mut out = match color_of(&args.new_fill_color) {
        Some(to) => fill_changes(node, &hits, to),
        None => Vec::new(),
    };
    if let Some(to) = color_of(&args.new_stroke_color) {
        if stroke {
            out.push(Change::Stroke { from: node.stroke_color, to });
        }
    }
    if let Some(to) = args.new_stroke_width {
        if width {
            out.push(Change::StrokeWidth { was: node.stroke_width, becomes: to });
        }
    }
    let fonts = font && args.new_font_family.is_some();
    if fonts {
        out.push(Change::FontFamily);
    }
    if let Some(o) = args.new_opacity {
        let to = clamped(o, (Double { bits: 0 }), (Double { bits: UNIT }));
        if any && less(
            (Double { bits: OPACITY_STEP }),
            absolute(narrowed(minus(node.opacity, to))),
        ) {
            out.push(Change::Opacity { was: node.opacity, becomes: to });
        }
    }
    assert(out@ =~= style_changes(*node, *args));
    (out, fonts)
}

/// The nodes that are searched: those with the given ids, or all of a layer, or
/// all.
pub open spec fn searched(nodes: Seq<Node>, args: FindReplaceStyleArgs, positions: Seq<usize>) -> bool {
    match args.node_ids {
        Some(ids) => positions_of(nodes, ids@, positions),
        None => positions == layer_positions(nodes, args.layer_id, nodes.len()),
    }
}

/// The positions of the first `n` nodes that lie on the layer.
pub open spec fn layer_positions(nodes: Seq<Node>, layer: Option<u128>, n: nat) -> Seq<usize>
    decreases n,
{
    if n == 0 {
        Seq::empty()
    } else {
        let before = layer_positions(nodes, layer, (n - 1) as nat);
        if layer is None || layer == Some(nodes[n - 1].layer) {
            before.push((n - 1) as usize)
        } else {
            before
        }
    }
}

fn find_layer_positions(nodes: &Vec<Node>, layer: Option<u128>) -> (r: Vec<usize>)
    ensures
        r@ == layer_positions(nodes@, layer, nodes@.len()),
{
    let mut out: Vec<usize> = Vec::new();
    let mut i: usize = 0;
    while i < nodes.len()
        invariant
            i <= nodes.len(),
            out@ == layer_positions(nodes@, layer, i as nat),
        decreases nodes.len() - i,
    {
        let wanted = match layer {
            None => true,
            Some(l) => l == nodes[i].layer,
        };
        if wanted {
            out.push(i);
        }
        i += 1;
    }
    out
}

/// The changes of one node.
#[derive(Debug)]
pub struct StyleEdit {
    pub position: usize,
    pub changes: Vec<Change>,
    /// The old and the new font family, where it is replaced.
    pub family: Option<(String, String)>,
}

#[verifier::ext_equal]
pub struct StyleEditView {
    pub position: usize,
    pub changes: Seq<Change>,
    pub family: Option<(Seq<char>, Seq<char>)>,
}

impl View for StyleEdit {
    type V = StyleEditView;

    open spec fn view(&self) -> StyleEditView {
        StyleEditView {
            position: self.position,
            changes: self.changes@,
            family: match self.family {
                Some((from, to)) => Some((from@, to@)),
                None => None,
            },
        }
    }
}

pub open spec fn style_edit_views(v: Seq<StyleEdit>) -> Seq<StyleEditView> {
    v.map_values(|e: StyleEdit| e@)
}

/// The edits of the nodes at these positions, without the nodes that stay as they
/// are.
pub open spec fn style_edits(
    nodes: Seq<Node>,
    args: FindReplaceStyleArgs,
    positions: Seq<usize>,
) -> Seq<StyleEditView>
    decreases positions.len(),
{
    if positions.len() == 0 {
        Seq::empty()
    } else {
        let before = style_edits(nodes, args, positions.drop_last());
        let p = positions.last();
        let changes = style_changes(nodes[p as int], args);
        if changes.len() == 0 {
            before
        } else {
            before.push(
                StyleEditView {
                    position: p,
                    changes,
                    family: family_change(nodes[p as int], args),
                },
            )
        }
    }
}

/// What is done: the edits, whether they are made or only reported, how many
/// entries this adds to the history, and what is said.
#[derive(Debug)]
pub struct StylePlan {
    pub edits: Vec<StyleEdit>,
    pub apply: bool,
    pub entries: usize,
    pub message: String,
}

/// The plan that a search makes: its edits, all of which are made in one entry of
/// the history, unless there are none or they are only reported.
pub open spec fn is_style_plan(
    nodes: Seq<Node>,
    args: FindReplaceStyleArgs,
    plan: StylePlan,
) -> bool {
    &&& exists|positions: Seq<usize>| #[trigger]
        searched(nodes, args, positions) && style_edit_views(plan.edits@) == style_edits(
            nodes,
            args,
            positions,
        )
    &&& plan.apply == (!args.dry_run && plan.edits@.len() > 0)
    &&& plan.entries == if plan.apply {
        1int
    } else {
        0int
    }
    &&& plan.message@ == style_message(plan.edits@.len(), args.dry_run)
}

/// What is said about `n` edits.
pub open spec fn style_message(n: nat, dry_run: bool) -> Seq<char> {
    if dry_run {
        if n == 0 {
            "dry_run: no nodes match the search criteria"@
        } else {
            counted("dry_run: "@, n, " node(s) would be updated"@)
        }
    } else if n == 0 {
        "No nodes matched the search criteria — nothing changed"@
    } else {
        counted("Updated "@, n, " node(s)"@)
    }
}

fn say_style(n: usize, dry_run: bool) -> (r: String)
    ensures
        r@ == style_message(n as nat, dry_run),
{
    if dry_run {
        if n == 0 {
            "dry_run: no nodes match the search criteria".to_owned()
        } else {
            count_text("dry_run: ", n, " node(s) would be updated")
        }
    } else if n == 0 {
        "No nodes matched the search criteria — nothing changed".to_owned()
    } else {
        count_text("Updated ", n, " node(s)")
    }
}

proof fn lemma_positions_in_range(nodes: Seq<Node>, ids: Seq<u128>, positions: Seq<usize>)
    requires
        positions_of(nodes, ids, positions),
    ensures
        below(positions, nodes.len()),
    decreases ids.len(),
{
    if ids.len() > 0 {
        if has_node(nodes, ids.last()) {
            lemma_positions_in_range(nodes, ids.drop_last(), positions.drop_last());
            assert forall|i: int| 0 <= i < positions.len() implies #[trigger] positions[i]
                < nodes.len() by {
                if i < positions.len() - 1 {
                    assert(positions.drop_last()[i] == positions[i]);
                }
            }
        } else {
            lemma_positions_in_range(nodes, ids.drop_last(), positions);
        }
    }
}

proof fn lemma_layer_positions_in_range(nodes: Seq<Node>, layer: Option<u128>, n: nat)
    requires
        n <= nodes.len(),
        nodes.len() <= usize::MAX,
    ensures
        below(layer_positions(nodes, layer, n), n),
    decreases n,
{
    if n > 0 {
        lemma_layer_positions_in_range(nodes, layer, (n - 1) as nat);
    }
}

/// Finds nodes by their fill, stroke or font and replaces these, and the opacity,
/// in one step. With `dry_run` nothing is made.
pub fn find_replace_style(nodes: &Vec<Node>, args: &FindReplaceStyleArgs) -> (r: Result<
    StylePlan,
    String,
>)
    ensures
        match r {
            Err(e) => style_error(*args) == Some(e@),
            Ok(plan) => {
                &&& style_error(*args) is None
                &&& is_style_plan(nodes@, *args, plan)
            },
        },
{
    if let Some(e) = check_style(args) {
        return Err(e);
    }
    let positions = match &args.node_ids {
        Some(ids) => find_positions(nodes, ids),
        None => find_layer_positions(nodes, args.layer_id),
    };
    assert(searched(nodes@, *args, positions@));
    proof {
        match &args.node_ids {
            Some(ids) => lemma_positions_in_range(nodes@, ids@, positions@),
            None => {
                assert(nodes.len() == nodes@.len());
                lemma_layer_positions_in_range(nodes@, args.layer_id, nodes@.len());
            },
        }
    }
    let mut edits: Vec<StyleEdit> = Vec::new();
    let mut i: usize = 0;
    assert(positions@.take(0) =~= Seq::<usize>::empty());
    assert(style_edit_views(edits@) =~= Seq::<StyleEditView>::empty());
    while i < positions.len()
        invariant
            i <= positions.len(),
            below(positions@, nodes@.len()),
            style_edit_views(edits@) == style_edits(nodes@, *args, positions@.take(i as int)),
        decreases positions.len() - i,
    {
        proof {
            assert(positions@.take(i + 1).drop_last() =~= positions@.take(i as int));
            assert(positions@.take(i + 1).last() == positions@[i as int]);
        }
        let p: usize = positions[i];
        let (changes, fonts) = find_changes(&nodes[p], args);
        if changes.len() > 0 {
            let ghost before = edits@;
            let family = match &args.new_font_family {
                Some(to) => if fonts {
                    Some((nodes[p].font_family.as_str().to_owned(), to.as_str().to_owned()))
                } else {
                    None
                },
                None => None,
            };
            let edit = StyleEdit { position: p, changes, family };
            proof {
                assert(style_edit_views(before.push(edit)) =~= style_edit_views(before).push(
                    edit@,
                ));
            }
            edits.push(edit);
        }
        i += 1;
    }
    assert(positions@.take(positions@.len() as int) =~= positions@);
    let n: usize = edits.len();
    let apply = !args.dry_run && n > 0;
    let entries: usize = if apply {
        1
    } else {
        0
    };
    Ok(StylePlan { edits, apply, entries, message: say_style(n, args.dry_run) })
}

/// The two requests differ at most in whether they are dry runs.
pub open spec fn same_search(a: FindReplaceStyleArgs, b: FindReplaceStyleArgs) -> bool {
    a == (FindReplaceStyleArgs { dry_run: a.dry_run, ..b })
}

proof fn lemma_same_positions(
    nodes: Seq<Node>,
    ids: Seq<u128>,
    p: Seq<usize>,
    q: Seq<usize>,
)
    requires
        positions_of(nodes, ids, p),
        positions_of(nodes, ids, q),
    ensures
        p == q,
    decreases ids.len(),
{
    if ids.len() == 0 {
        assert(p =~= q);
    } else if has_node(nodes, ids.last()) {
        lemma_same_positions(nodes, ids.drop_last(), p.drop_last(), q.drop_last());
        assert(p =~= p.drop_last().push(p.last()));
        assert(q =~= q.drop_last().push(q.last()));
    } else {
        lemma_same_positions(nodes, ids.drop_last(), p, q);
    }
}

proof fn lemma_same_edits(
    nodes: Seq<Node>,
    a: FindReplaceStyleArgs,
    b: FindReplaceStyleArgs,
    positions: Seq<usize>,
)
    requires
        same_search(a, b),
    ensures
        style_edits(nodes, a, positions) == style_edits(nodes, b, positions),
    decreases positions.len(),
{
    if positions.len() > 0 {
        lemma_same_edits(nodes, a, b, positions.drop_last());
        let node = nodes[positions.last() as int];
        assert(fill_hits_of(node, a) == fill_hits_of(node, b));
        assert(stroke_hit(node, a) == stroke_hit(node, b));
        assert(width_hit(node, a) == width_hit(node, b));
        assert(font_hit(node, a) == font_hit(node, b));
        assert(style_changes(node, a) =~= style_changes(node, b));
    }
}

/// A dry run lists exactly what the run itself changes, and makes nothing: it adds
/// no entry to the history. The run adds exactly one entry where the list is not
/// empty, and none where it is.
pub proof fn law_dry_run_lists_the_run(
    nodes: Seq<Node>,
    dry: FindReplaceStyleArgs,
    run: FindReplaceStyleArgs,
    listed: StylePlan,
    made: StylePlan,
)
    requires
        same_search(dry, run),
        dry.dry_run,
        !run.dry_run,
        is_style_plan(nodes, dry, listed),
        is_style_plan(nodes, run, made),
    ensures
        style_edit_views(listed.edits@) == style_edit_views(made.edits@),
        !listed.apply,
        listed.entries == 0,
        made.apply == (listed.edits@.len() > 0),
        made.entries == if listed.edits@.len() > 0 {
            1int
        } else {
            0int
        },
{
    let p = choose|p: Seq<usize>| #[trigger]
        searched(nodes, dry, p) && style_edit_views(listed.edits@) == style_edits(nodes, dry, p);
    let q = choose|q: Seq<usize>| #[trigger]
        searched(nodes, run, q) && style_edit_views(made.edits@) == style_edits(nodes, run, q);
    match dry.node_ids {
        Some(ids) => lemma_same_positions(nodes, ids@, p, q),
        None => {},
    }
    lemma_same_edits(nodes, dry, run, p);
    assert(style_edit_views(listed.edits@).len() == listed.edits@.len());
    assert(style_edit_views(made.edits@).len() == made.edits@.len());
}

/// A node is edited only where it matches what is sought, and never where nothing
/// is sought on it.
pub proof fn law_only_matches_change(node: Node, args: FindReplaceStyleArgs)
    ensures
        style_changes(node, args).len() > 0 ==> style_hit(node, args),
        node.kind == NodeKind::Group || node.kind == NodeKind::Raster ==> style_changes(
            node,
            args,
        ).len() == 0,
{
}

/// What `regex::escape` puts a backslash before.
pub open spec fn is_meta(c: char) -> bool {
    c == '\\' || c == '.' || c == '+' || c == '*' || c == '?' || c == '(' || c == ')' || c == '|'
        || c == '[' || c == ']' || c == '{' || c == '}' || c == '^' || c == '$' || c == '#' || c
        == '&' || c == '-' || c == '~'
}

/// A text with a backslash before every character that a pattern gives a meaning.
pub open spec fn escaped(text: Seq<char>) -> Seq<char>
    decreases text.len(),
{
    if text.len() == 0 {
        Seq::empty()
    } else if is_meta(text.last()) {
        escaped(text.drop_last()).push('\\').push(text.last())
    } else {
        escaped(text.drop_last()).push(text.last())
    }
}

/// `regex::escape`: the pattern that matches exactly this text.
#[verifier::external_body]
fn escape(text: &str) -> (r: String)
    ensures
        r@ == escaped(text@),
{
    regex::escape(text)
}

/// What `regex::Regex::new` says against a pattern.
pub uninterp spec fn pattern_fault(pattern: Seq<char>) -> Option<Seq<char>>;

/// `regex::Regex::new`: what is wrong with a pattern, as its error is written, or
/// nothing. Which patterns are accepted is not stated.
#[verifier::external_body]
fn check_pattern(pattern: &str) -> (r: Option<String>)
    ensures
        option_text(r) == pattern_fault(pattern@),
{
    regex::Regex::new(pattern).err().map(|e| e.to_string())
}

/// What `regex::Regex::replace_all` makes of a text.
pub uninterp spec fn pattern_replaced(
    pattern: Seq<char>,
    text: Seq<char>,
    replacement: Seq<char>,
) -> Seq<char>;

/// `regex::Regex::replace_all`: the text with every match of the pattern replaced;
/// `None` where the pattern is none. What the matches are is not stated.
#[verifier::external_body]
fn replace_matches(pattern: &str, text: &str, replacement: &str) -> (r: Option<String>)
    ensures
        r is None <==> pattern_fault(pattern@) is Some,
        r matches Some(t) ==> t@ == pattern_replaced(pattern@, text@, replacement@),
{
    let re = regex::Regex::new(pattern).ok()?;
    Some(re.replace_all(text, replacement).into_owned())
}

/// What text is sought and by what it is replaced.
#[derive(Debug)]
pub struct FindReplaceTextArgs {
    pub find: String,
    pub replace: String,
    /// `find` is a pattern, not a plain text.
    pub regex: bool,
    pub case_sensitive: bool,
    pub node_ids: Option<Vec<u128>>,
    pub dry_run: bool,
}

/// The pattern that is sought.
pub open spec fn search_pattern(args: FindReplaceTextArgs) -> Seq<char> {
    let body = if args.regex {
        args.find@
    } else {
        escaped(args.find@)
    };
    if args.case_sensitive {
        body
    } else {
        "(?i)"@ + body
    }
}

/// The pattern that is sought.
pub fn search_pattern_of(args: &FindReplaceTextArgs) -> (r: String)
    ensures
        r@ == search_pattern(*args),
{
    let body = if args.regex {
        args.find.as_str().to_owned()
    } else {
        escape(args.find.as_str())
    };
    if args.case_sensitive {
        body
    } else {
        joined("(?i)", body.as_str())
    }
}

/// The positions of the first `n` nodes that are texts.
pub open spec fn text_positions(nodes: Seq<Node>, n: nat) -> Seq<usize>
    decreases n,
{
    if n == 0 {
        Seq::empty()
    } else {
        let before = text_positions(nodes, (n - 1) as nat);
        if nodes[n - 1].kind == NodeKind::Text {
            before.push((n - 1) as usize)
        } else {
            before
        }
    }
}

/// The nodes that are searched: those with the given ids, or all texts.
pub open spec fn searched_texts(
    nodes: Seq<Node>,
    ids: Option<Vec<u128>>,
    positions: Seq<usize>,
) -> bool {
    match ids {
        Some(v) => positions_of(nodes, v@, positions),
        None => positions == text_positions(nodes, nodes.len()),
    }
}

/// The nodes that are searched.
pub fn text_candidates(nodes: &Vec<Node>, ids: &Option<Vec<u128>>) -> (r: Vec<usize>)
    ensures
        searched_texts(nodes@, *ids, r@),
        below(r@, nodes@.len()),
{
    match ids {
        Some(v) => {
            let r = find_positions(nodes, v);
            proof {
                lemma_positions_in_range(nodes@, v@, r@);
            }
            r
        },
        None => {
            let mut out: Vec<usize> = Vec::new();
            let mut i: usize = 0;
            while i < nodes.len()
                invariant
                    i <= nodes.len(),
                    out@ == text_positions(nodes@, i as nat),
                    below(out@, i as nat),
                decreases nodes.len() - i,
            {
                if nodes[i].kind == NodeKind::Text {
                    out.push(i);
                }
                i += 1;
            }
            out
        },
    }
}

/// A new content for a text.
#[derive(Debug)]
pub struct TextEdit {
    pub position: usize,
    pub content: String,
}

pub open spec fn text_edit_views(v: Seq<TextEdit>) -> Seq<(usize, Seq<char>)> {
    v.map_values(|e: TextEdit| (e.position, e.content@))
}

/// The edits of the texts at these positions, where text number `i` becomes
/// `made[i]`; what is no text and what stays the same is left out.
pub open spec fn text_edits(
    nodes: Seq<Node>,
    positions: Seq<usize>,
    made: Seq<Seq<char>>,
) -> Seq<(usize, Seq<char>)>
    decreases positions.len(),
{
    if positions.len() == 0 {
        Seq::empty()
    } else {
        let before = text_edits(nodes, positions.drop_last(), made);
        let p = positions.last();
        let new = made[positions.len() - 1];
        if nodes[p as int].kind == NodeKind::Text && new != nodes[p as int].content@ {
            before.push((p, new))
        } else {
            before
        }
    }
}

/// What is done: the edits, whether they are made or only reported, how many entries
/// this adds to the history, and what is said.
#[derive(Debug)]
pub struct TextPlan {
    pub edits: Vec<TextEdit>,
    pub apply: bool,
    pub entries: usize,
    pub message: String,
}

/// What is said about `n` edits of `candidates` nodes.
pub open spec fn text_message(candidates: nat, n: nat, dry_run: bool) -> Seq<char> {
    if candidates == 0 {
        "No text nodes found."@
    } else if n == 0 {
        "No text nodes matched the search pattern."@
    } else if dry_run {
        counted("dry_run: "@, n, " text node(s) would be updated."@)
    } else {
        counted("Updated "@, n, " text node(s)."@)
    }
}

pub open spec fn strings(v: Seq<String>) -> Seq<Seq<char>> {
    v.map_values(|s: String| s@)
}

/// Plans the edits of texts whose new contents are given.
pub fn plan_text_edits(
    nodes: &Vec<Node>,
    positions: &Vec<usize>,
    made: &Vec<String>,
    dry_run: bool,
) -> (r: TextPlan)
    requires
        below(positions@, nodes@.len()),
        made.len() == positions.len(),
    ensures
        text_edit_views(r.edits@) == text_edits(nodes@, positions@, strings(made@)),
        r.apply == (!dry_run && r.edits@.len() > 0),
        r.entries == if r.apply {
            1int
        } else {
            0int
        },
        r.message@ == text_message(positions@.len(), r.edits@.len(), dry_run),
{
    let mut edits: Vec<TextEdit> = Vec::new();
    let mut i: usize = 0;
    assert(positions@.take(0) =~= Seq::<usize>::empty());
    assert(text_edit_views(edits@) =~= Seq::<(usize, Seq<char>)>::empty());
    while i < positions.len()
        invariant
            i <= positions.len(),
            below(positions@, nodes@.len()),
            made.len() == positions.len(),
            text_edit_views(edits@) == text_edits(
                nodes@,
                positions@.take(i as int),
                strings(made@),
            ),
        decreases positions.len() - i,
    {
        proof {
            assert(positions@.take(i + 1).drop_last() =~= positions@.take(i as int));
            assert(positions@.take(i + 1).last() == positions@[i as int]);
        }
        let p: usize = positions[i];
        if nodes[p].kind == NodeKind::Text && !same_text(
            made[i].as_str(),
            nodes[p].content.as_str(),
        ) {
            let ghost before = edits@;
            let edit = TextEdit { position: p, content: made[i].as_str().to_owned() };
            proof {
                assert(text_edit_views(before.push(edit)) =~= text_edit_views(before).push(
                    (edit.position, edit.content@),
                ));
            }
            edits.push(edit);
        }
        i += 1;
    }
    assert(positions@.take(positions@.len() as int) =~= positions@);
    let n: usize = edits.len();
    let message = if positions.len() == 0 {
        "No text nodes found.".to_owned()
    } else if n == 0 {
        "No text nodes matched the search pattern.".to_owned()
    } else if dry_run {
        count_text("dry_run: ", n, " text node(s) would be updated.")
    } else {
        count_text("Updated ", n, " text node(s).")
    };
    let apply = !dry_run && n > 0;
    let entries: usize = if apply {
        1
    } else {
        0
    };
    TextPlan { edits, apply, entries, message }
}

/// What every searched node becomes.
pub open spec fn replaced_texts(
    nodes: Seq<Node>,
    positions: Seq<usize>,
    args: FindReplaceTextArgs,
) -> Seq<Seq<char>> {
    positions.map_values(
        |p: usize| pattern_replaced(search_pattern(args), nodes[p as int].content@, args.replace@),
    )
}

/// Searches texts and replaces what is found. With `dry_run` nothing is made.
pub fn find_replace_text(nodes: &Vec<Node>, args: &FindReplaceTextArgs) -> (r: Result<
    TextPlan,
    String,
>)
    ensures
        match r {
            Err(e) => pattern_fault(search_pattern(*args)) matches Some(f) && e@
                == "Invalid regex: "@ + f,
            Ok(plan) => {
                &&& pattern_fault(search_pattern(*args)) is None
                &&& exists|positions: Seq<usize>| #[trigger]
                    searched_texts(nodes@, args.node_ids, positions) && text_edit_views(plan.edits@)
                        == text_edits(nodes@, positions, replaced_texts(nodes@, positions, *args))
                        && plan.message@ == text_message(
                        positions.len(),
                        plan.edits@.len(),
                        args.dry_run,
                    )
                &&& plan.apply == (!args.dry_run && plan.edits@.len() > 0)
                &&& plan.entries == if plan.apply {
                    1int
                } else {
                    0int
                }
            },
        },
{
    let pattern = search_pattern_of(args);
    if let Some(fault) = check_pattern(pattern.as_str()) {
        return Err(joined("Invalid regex: ", fault.as_str()));
    }
    let positions = text_candidates(nodes, &args.node_ids);
    let ghost goal = replaced_texts(nodes@, positions@, *args);
    let mut made: Vec<String> = Vec::new();
    let mut i: usize = 0;
    while i < positions.len()
        invariant
            i <= positions.len(),
            made.len() == i,
            below(positions@, nodes@.len()),
            pattern@ == search_pattern(*args),
            pattern_fault(pattern@) is None,
            goal == replaced_texts(nodes@, positions@, *args),
            strings(made@) == goal.take(i as int),
        decreases positions.len() - i,
    {
        let p: usize = positions[i];
        let content = nodes[p].content.as_str();
        let text = match replace_matches(pattern.as_str(), content, args.replace.as_str()) {
            Some(t) => t,
            None => content.to_owned(),
        };
        let ghost before = made@;
        proof {
            assert(text@ == goal[i as int]);
            assert(strings(before.push(text)) =~= strings(before).push(text@));
            assert(goal.take(i + 1) =~= goal.take(i as int).push(text@));
        }
        made.push(text);
        i += 1;
    }
    assert(goal.take(positions@.len() as int) =~= goal);
    Ok(plan_text_edits(nodes, &positions, &made, args.dry_run))
}


/// The channels of a colour are from 0 to 1.
pub open spec fn is_in_range(c: Color) -> bool {
    c.r.bits <= UNIT && c.g.bits <= UNIT && c.b.bits <= UNIT
}

/// 2 to the power -60 in units.
pub open spec fn least_difference() -> nat {
    power(2, 1014)
}

/// The distance of two colours is zero where all channels agree, and above zero where any
/// channel differs, by 2 to the power -60 or more: the square of less is nothing in the
/// binary32 format.
pub proof fn law_distance_counts_every_channel(a: Color, b: Color)
    requires
        is_in_range(a),
        is_in_range(b),
    ensures
        a.r == b.r && a.g == b.g && a.b == b.b ==> color_gap(a, b).key() == 0,
        abs(exact(a.r) - exact(b.r)) >= least_difference() ==> color_gap(a, b).key() > 0,
        abs(exact(a.g) - exact(b.g)) >= least_difference() ==> color_gap(a, b).key() > 0,
        abs(exact(a.b) - exact(b.b)) >= least_difference() ==> color_gap(a, b).key() > 0,
{
    let dr = short_difference(a.r, b.r);
    let dg = short_difference(a.g, b.g);
    let db = short_difference(a.b, b.b);
    lemma_channel_square(a.r, b.r);
    lemma_channel_square(a.g, b.g);
    lemma_channel_square(a.b, b.b);
    let pr = short_product(dr, dr);
    let pg = short_product(dg, dg);
    let pb = short_product(db, db);
    lemma_short_sum(pr, pg, 0x3ff0_0000_0000_0000, 0x4000_0000_0000_0000);
    let s = short_sum(pr, pg);
    lemma_short_sum(s, pb, 0x4000_0000_0000_0000, 0x4010_0000_0000_0000);
    lemma_mean_root(short_sum(s, pb));
}

/// The distance is the same from either colour.
pub proof fn law_distance_is_symmetric(a: Color, b: Color)
    ensures
        color_gap(a, b) == color_gap(b, a),
{
    lemma_square_of_difference(a.r, b.r);
    lemma_square_of_difference(a.g, b.g);
    lemma_square_of_difference(a.b, b.b);
}

/// A difference in one channel alone weighs the same in whichever channel it is.
pub proof fn law_channels_weigh_the_same(c: Color, x: Double, y: Double)
    requires
        is_in_range(c),
        x.bits <= UNIT,
        y.bits <= UNIT,
        abs(exact(x) - exact(y)) >= least_difference(),
    ensures
        color_gap(Color { r: x, ..c }, Color { r: y, ..c }) == color_gap(
            Color { b: x, ..c },
            Color { b: y, ..c },
        ),
        color_gap(Color { g: x, ..c }, Color { g: y, ..c }) == color_gap(
            Color { b: x, ..c },
            Color { b: y, ..c },
        ),
{
    lemma_channel_square(x, y);
    lemma_channel_square(c.r, c.r);
    lemma_channel_square(c.g, c.g);
    lemma_channel_square(c.b, c.b);
    let d = short_difference(x, y);
    let p = short_product(d, d);
    let dr = short_difference(c.r, c.r);
    let zr = short_product(dr, dr);
    let dg = short_difference(c.g, c.g);
    let zg = short_product(dg, dg);
    let db = short_difference(c.b, c.b);
    let zb = short_product(db, db);
    lemma_plus_nothing(p, zr);
    lemma_plus_nothing(p, zg);
    lemma_plus_nothing(p, zb);
    lemma_short_stays(f_mul(d, d));
    lemma_nothing_sum(zr, zg);
    lemma_plus_nothing(p, short_sum(zr, zg));
}

/// So where no difference is allowed, a colour is replaced only where none of its channels
/// differs from those of the colour that is sought.
pub proof fn law_exact_search_finds_exact_colors(
    node: Node,
    target: Color,
    tolerance: Double,
    i: int,
)
    requires
        tolerance.key() == 0,
        is_in_range(target),
        fill_colors(node.fill).len() <= usize::MAX,
        0 <= i < fill_hits(node, target, tolerance).len(),
        0 <= fill_hits(node, target, tolerance)[i] < fill_colors(node.fill).len(),
        is_in_range(fill_colors(node.fill)[fill_hits(node, target, tolerance)[i] as int]),
    ensures
        ({
            let c = fill_colors(node.fill)[fill_hits(node, target, tolerance)[i] as int];
            &&& abs(exact(c.r) - exact(target.r)) < least_difference()
            &&& abs(exact(c.g) - exact(target.g)) < least_difference()
            &&& abs(exact(c.b) - exact(target.b)) < least_difference()
        }),
{
    let colors = fill_colors(node.fill);
    lemma_hits_are_near(colors, target, tolerance, colors.len(), i);
    law_distance_counts_every_channel(
        colors[fill_hits(node, target, tolerance)[i] as int],
        target,
    );
}

proof fn lemma_hits_are_near(
    colors: Seq<Color>,
    target: Color,
    tolerance: Double,
    n: nat,
    i: int,
)
    requires
        0 <= i < near_places(colors, target, tolerance, n).len(),
        n <= colors.len(),
        n <= usize::MAX,
    ensures
        near_places(colors, target, tolerance, n)[i] < n,
        is_near(
            colors[near_places(colors, target, tolerance, n)[i] as int],
            target,
            tolerance,
        ),
    decreases n,
{
    let before = near_places(colors, target, tolerance, (n - 1) as nat);
    if i < before.len() {
        lemma_hits_are_near(colors, target, tolerance, (n - 1) as nat, i);
    }
}

proof fn lemma_square_of_difference(x: Double, y: Double)
    ensures
        short_product(short_difference(x, y), short_difference(x, y)) == short_product(
            short_difference(y, x),
            short_difference(y, x),
        ),
{
    lemma_difference_mirrors(x, y);
    let d = f_sub(x, y);
    let e = f_sub(y, x);
    reveal(f_mul);
    if !d.is_nan() {
        if d.magnitude() < LEAST_NORMAL_SINGLE {
            let shift = (Double { bits: TINY_SHIFT });
            let t = f_sub(f_add(f_abs(d), shift), shift);
            assert(f_abs(d) == f_abs(e));
            lemma_neg(t);
        }
        let a = f_narrow(d);
        let b = f_narrow(e);
        assert(a.magnitude() == b.magnitude());
        if a.wf() {
            let m = exact(a);
            let n = exact(b);
            assert(m == n || m == -n);
            assert(m * m == n * n) by (nonlinear_arith)
                requires
                    m == n || m == -n,
            ;
        }
    }
}

/// The squared difference of two channels: from 0 to 1, nothing where they agree, and at
/// least 2 to the power -120 where they differ noticeably.
proof fn lemma_channel_square(x: Double, y: Double)
    requires
        x.bits <= UNIT,
        y.bits <= UNIT,
    ensures
        ({
            let d = short_difference(x, y);
            let p = short_product(d, d);
            &&& p.bits <= UNIT
            &&& x == y ==> p.bits == 0
            &&& f_mul(d, d).bits <= UNIT
            &&& abs(exact(x) - exact(y)) >= least_difference() ==> f_mul(d, d).bits >= LEAST_SQUARE
            &&& abs(exact(x) - exact(y)) >= least_difference() ==> p.bits >= LEAST_SQUARE
        }),
{
    let e = f_sub(x, y);
    lemma_sum_grows(x, y);
    lemma_sum_grows(y, x);
    lemma_difference_mirrors(x, y);
    assert(e.magnitude() <= UNIT);
    lemma_short_bounds(e, UNIT as nat);
    let d = short_difference(x, y);
    assert(d.magnitude() <= UNIT);
    let a = f_abs(d);
    assert(f_mul(d, d) == f_mul(a, a)) by {
        reveal(f_mul);
        lemma_neg(a);
        if d.negative() {
            assert(d == f_neg(a));
            lemma_product_mirrors(a, a);
        } else {
            assert(d == a);
        }
    }
    let one = (Double { bits: UNIT });
    lemma_one();
    assert(one == whole(1));
    lemma_product_keeps_order(a, one, a);
    lemma_times_one(a);
    lemma_product_sign(a, a);
    let sq = f_mul(a, a);
    assert(sq.bits <= UNIT);
    lemma_short_bounds(sq, UNIT as nat);
    if x == y {
        lemma_self_difference(x);
        assert(e.bits == 0);
        lemma_short_nothing();
        lemma_whole(0);
        assert(whole(0) == (Double { bits: 0 }));
        lemma_times_nothing(a);
    }
    if abs(exact(x) - exact(y)) >= least_difference() {
        lemma_noticeable(x, y);
        let least = (Double { bits: LEAST_DIFFERENCE });
        lemma_short_at_least(e, LEAST_DIFFERENCE as nat);
        lemma_product_keeps_order(least, a, a);
        lemma_product_keeps_order(least, a, least);
        lemma_product_commutes(least, a);
        lemma_least_square();
        lemma_short_at_least(sq, LEAST_SQUARE as nat);
    }
}

/// 2 to the power -60 as a number.
pub const LEAST_DIFFERENCE: u64 = 0x3c30_0000_0000_0000;

/// 2 to the power -120 as a number.
pub const LEAST_SQUARE: u64 = 0x3870_0000_0000_0000;

/// 2 to the power -122 as a number.
pub const LEAST_MEAN: u64 = 0x3850_0000_0000_0000;

/// 2 to the power -61 as a number.
pub const LEAST_DISTANCE: u64 = 0x3c20_0000_0000_0000;

proof fn lemma_noticeable(x: Double, y: Double)
    requires
        x.bits <= UNIT,
        y.bits <= UNIT,
        abs(exact(x) - exact(y)) >= least_difference(),
    ensures
        f_sub(x, y).magnitude() >= LEAST_DIFFERENCE,
{
    lemma_power_positive(2, 1074);
    lemma_neg(y);
    lemma_sum_value(x, f_neg(y));
    let least = (Double { bits: LEAST_DIFFERENCE });
    lemma_two_to(least, 963);
    assert(exact(least) == power(2, 1014));
    let u = one_units();
    let v = exact(x) - exact(y);
    lemma_power_positive(2, 1014);
    lemma_value_stays(least);
    if v > 0 {
        lemma_rounding_keeps_order(exact(least), v, u);
    } else {
        lemma_rounding_keeps_order(v, -exact(least), u);
        lemma_rounding_mirrors(exact(least), u);
        lemma_neg(least);
    }
}

proof fn lemma_least_square()
    ensures
        f_mul(Double { bits: LEAST_DIFFERENCE }, Double { bits: LEAST_DIFFERENCE }).bits
            == LEAST_SQUARE,
{
    let least = (Double { bits: LEAST_DIFFERENCE });
    let sq = (Double { bits: LEAST_SQUARE });
    lemma_two_to(least, 963);
    lemma_two_to(sq, 903);
    let u = one_units();
    lemma_power_positive(2, 1074);
    lemma_power_positive(2, 1014);
    lemma_power_positive(2, 954);
    lemma_power_add(2, 1014, 1014);
    lemma_power_add(2, 954, 1074);
    let e = power(2, 1014) as int;
    let v = exact(sq);
    assert(e * e == v * u);
    lemma_value_stays(sq);
    lemma_rounded_exists(v, u);
    lemma_rounded_scaled(v, u, u, sq);
    reveal(f_mul);
    assert(e * e != 0) by (nonlinear_arith)
        requires
            e > 0,
    ;
}

/// The sum of two numbers that are not negative, in the binary32 format.
proof fn lemma_short_sum(a: Double, b: Double, most: u64, sum: u64)
    requires
        a.bits <= most,
        b.bits <= 0x3ff0_0000_0000_0000,
        (most == 0x3ff0_0000_0000_0000 && sum == 0x4000_0000_0000_0000) || (most
            == 0x4000_0000_0000_0000 && sum == 0x4010_0000_0000_0000),
    ensures
        short_sum(a, b).bits <= sum,
        a.bits == 0 && b.bits == 0 ==> short_sum(a, b).bits == 0,
        a.bits >= LEAST_SQUARE ==> short_sum(a, b).bits >= LEAST_SQUARE,
        b.bits >= LEAST_SQUARE ==> short_sum(a, b).bits >= LEAST_SQUARE,
{
    let top = (Double { bits: most });
    lemma_two_to(top, (most / 0x10_0000_0000_0000) as nat);
    let total = (Double { bits: sum });
    lemma_two_to(total, (sum / 0x10_0000_0000_0000) as nat);
    lemma_sum_commutes(a, b);
    lemma_sum_keeps_order(a, top, b);
    lemma_sum_commutes(top, b);
    lemma_sum_keeps_order(b, top, top);
    assert(f_add(top, top).key() <= total.key()) by {
        lemma_sum_value(top, top);
        lemma_power_positive(2, 1074);
        lemma_zero_value(total);
        lemma_value_stays(total);
        reveal_with_fuel(power, 3);
        lemma_power_positive(2, 1074);
        lemma_power_add(2, 1, 1074);
        lemma_power_add(2, 2, 1074);
        assert(power(2, 1076) == 2 * power(2, 1075));
        assert(power(2, 1075) == 2 * power(2, 1074));
        lemma_rounding_keeps_order(exact(top) + exact(top), exact(total), one_units());
    }
    lemma_sum_grows(a, b);
    lemma_sum_grows(b, a);
    let s = f_add(a, b);
    assert(!s.negative()) by {
        reveal(f_add);
        lemma_zero_value(a);
        lemma_zero_value(b);
        lemma_power_positive(2, 1074);
        if exact(a) + exact(b) != 0 {
            lemma_rounding_mirrors(exact(a) + exact(b), one_units());
        }
    }
    assert(s.bits <= sum);
    lemma_short_bounds(s, sum as nat);
    if a.bits >= LEAST_SQUARE || b.bits >= LEAST_SQUARE {
        lemma_short_at_least(s, LEAST_SQUARE as nat);
    }
    if a.bits == 0 && b.bits == 0 {
        lemma_nothing_sum(a, b);
    }
}

proof fn lemma_nothing_sum(a: Double, b: Double)
    requires
        a.bits == 0,
        b.bits == 0,
    ensures
        short_sum(a, b).bits == 0,
{
    reveal(f_add);
    lemma_zero_value(a);
    lemma_short_nothing();
    assert(f_add(a, b) == a);
}

/// The root of the third part of a sum.
proof fn lemma_mean_root(total: Double)
    requires
        total.bits <= 0x4010_0000_0000_0000,
    ensures
        ({
            let r = f_narrow(f_sqrt(f_narrow(f_div(total, (Double { bits: THREE })))));
            &&& total.bits == 0 ==> r.key() == 0
            &&& total.bits >= LEAST_SQUARE ==> r.key() > 0
        }),
{
    let three = (Double { bits: THREE });
    lemma_three();
    reveal(f_div);
    reveal(f_sqrt);
    let q = f_div(total, three);
    lemma_power_positive(2, 1074);
    let u = one_units();
    if total.bits == 0 {
        lemma_zero_value(total);
        assert(q.bits == 0);
        lemma_short_nothing();
    }
    if total.bits >= LEAST_SQUARE {
        let least = (Double { bits: LEAST_SQUARE });
        let mean = (Double { bits: LEAST_MEAN });
        lemma_two_to(least, 903);
        lemma_two_to(mean, 901);
        lemma_order(least, total);
        lemma_zero_value(total);
        lemma_power_positive(2, 952);
        assert(power(2, 954) == 2 * power(2, 953));
        assert(power(2, 953) == 2 * power(2, 952));
        assert(exact(total) >= 3 * exact(mean));
        lemma_value_stays(mean);
        lemma_rounded_exists(exact(mean), u);
        lemma_rounded_scaled(exact(mean), u, 3, mean);
        assert(u * 3 == 3 * u);
        lemma_rounding_keeps_order(exact(mean) * 3, exact(total), 3 * u);
        assert(q.key() >= LEAST_MEAN);
        assert(q.bits <= 0x4010_0000_0000_0000) by {
            let most = (Double { bits: 0x4010_0000_0000_0000 });
            lemma_two_to(most, 1025);
            lemma_order(total, most);
            lemma_zero_value(most);
            lemma_value_stays(most);
            lemma_rounded_exists(exact(most), u);
            lemma_rounded_scaled(exact(most), u, 3, most);
            lemma_rounding_keeps_order(exact(total), exact(most) * 3, 3 * u);
        }
        lemma_short_at_least(q, LEAST_MEAN as nat);
        lemma_short_bounds(q, 0x4010_0000_0000_0000);
        let m = f_narrow(q);
        lemma_root_at_least(m);
        let r = f_sqrt(m);
        if r.is_infinite() || r.magnitude() >= SINGLE_LIMIT {
        } else {
            lemma_short_at_least(r, LEAST_DISTANCE as nat);
        }
    }
}

proof fn lemma_root_at_least(m: Double)
    requires
        LEAST_MEAN <= m.bits <= 0x4010_0000_0000_0000,
    ensures
        LEAST_DISTANCE <= f_sqrt(m).bits <= INFINITE,
{
    reveal(f_sqrt);
    let v = units(m.magnitude());
    let mean = (Double { bits: LEAST_MEAN });
    lemma_two_to(mean, 901);
    lemma_order(mean, m);
    assert(v >= power(2, 952));
    let b = LEAST_DISTANCE as nat;
    let root = (Double { bits: LEAST_DISTANCE });
    lemma_two_to(root, 962);
    let p = (b - 1) as nat;
    let t = twice_middle(p);
    // The middle below a number is below the number.
    assert(t < 2 * power(2, 1013)) by {
        lemma_twice_middle_below(p);
    }
    let e = power(2, 1013);
    lemma_power_add(2, 1013, 1013);
    lemma_power_add(2, 952, 1074);
    lemma_power_positive(2, 1013);
    let u = one_units();
    let big = e * e;
    assert(t * t < 4 * big) by (nonlinear_arith)
        requires
            0 <= t < 2 * e,
            big == e * e,
    ;
    assert(4 * v * u >= 4 * big) by (nonlinear_arith)
        requires
            v >= power(2, 952),
            power(2, 952) * u == big,
            u >= 0,
    ;
    assert(root_reaches(v, b));
    let s = lemma_root_exists(v);
    assert(is_root(v, s));
    let r = f_sqrt(m);
    assert(is_root(v, r));
    if r.bits < b {
        lemma_root_below(v, (r.bits + 1) as nat, b);
    }
}

proof fn lemma_twice_middle_below(p: nat)
    requires
        p + 1 == LEAST_DISTANCE,
    ensures
        twice_middle(p) < 2 * units(p + 1),
{
    let q = power(2, (exponent(p) + 1074) as nat);
    lemma_power_positive(2, (exponent(p) + 1074) as nat);
    let b = (p + 1) as nat;
    assert(p / (BINADE as nat) == 961 && p % (BINADE as nat) == BINADE - 1) by {
        lemma_fundamental_div_mod_converse(p as int, BINADE as int, 961, BINADE - 1);
    }
    assert(b / (BINADE as nat) == 962 && b % (BINADE as nat) == 0) by {
        lemma_fundamental_div_mod_converse(b as int, BINADE as int, 962, 0);
    }
    let m = mantissa(p);
    assert(m == 2 * BINADE - 1);
    assert(mantissa(b) == BINADE);
    assert(exponent(b) == exponent(p) + 1);
    assert(power(2, (exponent(b) + 1074) as nat) == 2 * q);
    let n = BINADE as nat;
    assert((2 * m + 1) * q < 2 * (n * (2 * q))) by (nonlinear_arith)
        requires
            m == 2 * n - 1,
            q > 0,
            n > 0,
    ;
}

proof fn lemma_root_exists(v: nat) -> (r: Double)
    ensures
        is_root(v, r),
{
    let c = lemma_find_root(v, INFINITE as nat);
    Double { bits: c as u64 }
}

proof fn lemma_find_root(v: nat, top: nat) -> (c: nat)
    requires
        top <= INFINITE,
        top == INFINITE || !root_reaches(v, top + 1),
    ensures
        c <= INFINITE,
        root_reaches(v, c),
        c < INFINITE ==> !root_reaches(v, c + 1),
    decreases top,
{
    if root_reaches(v, top) {
        top
    } else {
        lemma_find_root(v, (top - 1) as nat)
    }
}

proof fn lemma_three()
    ensures
        exact(Double { bits: THREE }) == 3 * one_units(),
{
    let c = THREE as nat;
    assert(c / (BINADE as nat) == 1024 && c % (BINADE as nat) == BINADE / 2) by {
        lemma_fundamental_div_mod_converse(c as int, BINADE as int, 1024, BINADE as int / 2);
    }
    assert(power(2, 52) == BINADE) by {
        lemma_power_add(2, 26, 26);
        reveal_with_fuel(power, 27);
    }
    lemma_power_add(2, 51, 1023);
    assert(power(2, 52) == 2 * power(2, 51));
    let q = power(2, 1023);
    assert(mantissa(c) == 3 * power(2, 51));
    let w = power(2, 51);
    assert((3 * w) * q == 3 * (w * q)) by (nonlinear_arith);
}

/// What is changed on a node is what the node has there, and it becomes what is asked for.
pub proof fn law_changes_lead_to_what_is_asked_for(
    node: Node,
    args: FindReplaceStyleArgs,
    i: int,
)
    requires
        0 <= i < style_changes(node, args).len(),
        fill_colors(node.fill).len() <= usize::MAX,
    ensures
        match style_changes(node, args)[i] {
            Change::Fill { from, to } => node.fill == Fill::Solid(from) && (args.new_fill_color
                matches Some(c) && c.color == Some(to)),
            Change::GradientStop { index, from, to } => (node.fill matches Fill::Gradient(cs)
                && cs@[index as int] == from) && (args.new_fill_color matches Some(c) && c.color
                == Some(to)),
            Change::FluidPoint { index, from, to } => (node.fill matches Fill::Fluid(cs)
                && cs@[index as int] == from) && (args.new_fill_color matches Some(c) && c.color
                == Some(to)),
            Change::MeshCell { index, from, to } => (node.fill matches Fill::Mesh(cs)
                && cs@[index as int] == from) && (args.new_fill_color matches Some(c) && c.color
                == Some(to)),
            Change::Stroke { from, to } => node.stroke_enabled && from == node.stroke_color && (
            args.new_stroke_color matches Some(c) && c.color == Some(to)),
            Change::StrokeWidth { was, becomes } => node.stroke_enabled && was
                == node.stroke_width && args.new_stroke_width == Some(becomes),
            Change::FontFamily => node.kind == NodeKind::Text && args.new_font_family is Some,
            Change::Opacity { was, becomes } => was == node.opacity && (args.new_opacity matches Some(
                o,
            ) && (is_between(o) ==> becomes == o)),
        },
{
    let colors = fill_colors(node.fill);
    let hits = fill_hits_of(node, args);
    if arg_color(args.fill_color) is Some && hits.len() > 0 && i < hits.len() {
        lemma_hits_are_near(
            colors,
            arg_color(args.fill_color)->0,
            style_tolerance(args),
            colors.len(),
            i,
        );
    }
}

/// A number from 0 to 1.
pub open spec fn is_between(o: Double) -> bool {
    o.bits <= UNIT
}


/// Each criterion of a search looks at what it names alone: the fill, the colour of the
/// stroke, its width, or the font.
pub proof fn law_criteria_are_apart(
    a: Node,
    b: Node,
    args: FindReplaceStyleArgs,
    other: FindReplaceStyleArgs,
)
    requires
        a.kind == b.kind,
        a.stroke_enabled == b.stroke_enabled,
        args.color_tolerance == other.color_tolerance,
    ensures
        a.fill == b.fill && args.fill_color == other.fill_color ==> fill_hits_of(a, args)
            == fill_hits_of(b, other),
        a.stroke_color == b.stroke_color && args.stroke_color == other.stroke_color ==> stroke_hit(
            a,
            args,
        ) == stroke_hit(b, other),
        a.stroke_width == b.stroke_width && args.stroke_width == other.stroke_width ==> width_hit(
            a,
            args,
        ) == width_hit(b, other),
        a.font_family@ == b.font_family@ && args.font_family == other.font_family ==> font_hit(
            a,
            args,
        ) == font_hit(b, other),
{
}

/// A stroke of just the width that is sought is found, and one without a stroke is not.
pub proof fn law_same_width_is_found(node: Node, args: FindReplaceStyleArgs)
    requires
        args.stroke_width == Some(node.stroke_width),
        node.stroke_width.wf(),
        node.stroke_width.key() >= 0,
        f_mul(node.stroke_width, style_tolerance(args)).wf(),
        f_mul(node.stroke_width, style_tolerance(args)).key() >= 0,
    ensures
        width_hit(node, args) <==> has_stroke(node),
{
    lemma_self_difference(node.stroke_width);
}

} // verus!
