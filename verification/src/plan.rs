//! What an import will draw, before anything is drawn: the destination and the
//! list of boxes, texts and icons, in drawing order.
use crate::double::{Double, INFINITE, SIGN};
use crate::float::{
    exact, f_add, f_div, f_max, f_min, f_sub, from_count, half, halved, maximum, minimum, minus,
    plus, whole,
};
use crate::steps::{is_plain, lemma_add, lemma_half, lemma_plain, lemma_sub};
use crate::text::texts;
use vstd::prelude::*;

verus! {

/// One item of a page.
#[verifier::ext_equal]
pub enum ItemView {
    Rect {
        name: Seq<char>,
        x: Double,
        y: Double,
        w: Double,
        h: Double,
        radius: Double,
        fill: Seq<char>,
        stroke: Seq<char>,
        stroke_width: Double,
        tags: Seq<Seq<char>>,
    },
    TopBorder {
        name: Seq<char>,
        left: Double,
        right: Double,
        top: Double,
        radius: Double,
        stroke_width: Double,
        color: Seq<char>,
    },
    Text {
        content: Seq<char>,
        x: Double,
        y: Double,
        size: Double,
        weight: u16,
        color: Seq<char>,
    },
    Icon { name: Seq<char>, x: Double, y: Double, size: Double, color: Seq<char> },
    Image { index: nat, x: Double, y: Double, size: Double },
}

/// One item of a page: a rounded box, the rounded top edge of a box, a text, an
/// icon by its name, or an imported picture by its number.
#[derive(Debug)]
pub enum PlanItem {
    Rect {
        name: String,
        x: Double,
        y: Double,
        w: Double,
        h: Double,
        radius: Double,
        fill: String,
        stroke: String,
        stroke_width: Double,
        tags: Vec<String>,
    },
    TopBorder {
        name: String,
        left: Double,
        right: Double,
        top: Double,
        radius: Double,
        stroke_width: Double,
        color: String,
    },
    Text { content: String, x: Double, y: Double, size: Double, weight: u16, color: String },
    Icon { name: String, x: Double, y: Double, size: Double, color: String },
    Image { index: usize, x: Double, y: Double, size: Double },
}

impl View for PlanItem {
    type V = ItemView;

    open spec fn view(&self) -> ItemView {
        match *self {
            PlanItem::Rect { name, x, y, w, h, radius, fill, stroke, stroke_width, tags } => {
                ItemView::Rect {
                    name: name@,
                    x,
                    y,
                    w,
                    h,
                    radius,
                    fill: fill@,
                    stroke: stroke@,
                    stroke_width,
                    tags: texts(tags@),
                }
            },
            PlanItem::TopBorder { name, left, right, top, radius, stroke_width, color } => {
                ItemView::TopBorder {
                    name: name@,
                    left,
                    right,
                    top,
                    radius,
                    stroke_width,
                    color: color@,
                }
            },
            PlanItem::Text { content, x, y, size, weight, color } => ItemView::Text {
                content: content@,
                x,
                y,
                size,
                weight,
                color: color@,
            },
            PlanItem::Icon { name, x, y, size, color } => ItemView::Icon {
                name: name@,
                x,
                y,
                size,
                color: color@,
            },
            PlanItem::Image { index, x, y, size } => ItemView::Image {
                index: index as nat,
                x,
                y,
                size,
            },
        }
    }
}

/// The items of a plan.
pub open spec fn items(v: Seq<PlanItem>) -> Seq<ItemView> {
    v.map_values(|i: PlanItem| i@)
}

/// A box without tags.
pub open spec fn box_item(
    name: Seq<char>,
    x: Double,
    y: Double,
    w: Double,
    h: Double,
    radius: Double,
    fill: Seq<char>,
    stroke: Seq<char>,
    stroke_width: Double,
) -> ItemView {
    ItemView::Rect {
        name,
        x,
        y,
        w,
        h,
        radius,
        fill,
        stroke,
        stroke_width,
        tags: Seq::empty(),
    }
}

/// A text.
pub open spec fn text_item(
    content: Seq<char>,
    x: Double,
    y: Double,
    size: Double,
    weight: u16,
    color: Seq<char>,
) -> ItemView {
    ItemView::Text { content, x, y, size, weight, color }
}

/// Appends a box.
pub fn push_box(
    out: &mut Vec<PlanItem>,
    name: &str,
    x: Double,
    y: Double,
    w: Double,
    h: Double,
    radius: Double,
    fill: &str,
    stroke: &str,
    stroke_width: Double,
)
    ensures
        items(final(out)@) == items(old(out)@).push(
            box_item(name@, x, y, w, h, radius, fill@, stroke@, stroke_width),
        ),
{
    let ghost before = out@;
    let item = PlanItem::Rect {
        name: name.to_owned(),
        x,
        y,
        w,
        h,
        radius,
        fill: fill.to_owned(),
        stroke: stroke.to_owned(),
        stroke_width,
        tags: Vec::new(),
    };
    proof {
        assert(texts(Seq::<String>::empty()) =~= Seq::<Seq<char>>::empty());
        assert(items(before.push(item)) =~= items(before).push(item@));
    }
    out.push(item);
}

/// Appends a box with one tag.
pub fn push_tagged_box(
    out: &mut Vec<PlanItem>,
    name: &str,
    x: Double,
    y: Double,
    w: Double,
    h: Double,
    radius: Double,
    fill: &str,
    stroke: &str,
    stroke_width: Double,
    tag: &str,
)
    ensures
        items(final(out)@) == items(old(out)@).push(
            (ItemView::Rect {
                name: name@,
                x,
                y,
                w,
                h,
                radius,
                fill: fill@,
                stroke: stroke@,
                stroke_width,
                tags: seq![tag@],
            }),
        ),
{
    let ghost before = out@;
    let mut tags: Vec<String> = Vec::new();
    tags.push(tag.to_owned());
    let item = PlanItem::Rect {
        name: name.to_owned(),
        x,
        y,
        w,
        h,
        radius,
        fill: fill.to_owned(),
        stroke: stroke.to_owned(),
        stroke_width,
        tags,
    };
    proof {
        assert(texts(tags@) =~= seq![tag@]);
        assert(items(before.push(item)) =~= items(before).push(item@));
    }
    out.push(item);
}

/// The edge along the top of a box at (`x`, `y`), `width` wide, with corners of
/// the radius `radius`: it runs in the middle of a stroke that lies inside the
/// box.
pub open spec fn top_border(
    name: Seq<char>,
    x: Double,
    y: Double,
    width: Double,
    radius: Double,
    stroke_width: Double,
    color: Seq<char>,
) -> ItemView {
    let half_stroke = f_div(stroke_width, whole(2));
    let left = f_add(x, half_stroke);
    let right = f_sub(f_add(x, width), half_stroke);
    ItemView::TopBorder {
        name,
        left,
        right,
        top: f_add(y, half_stroke),
        radius: f_min(
            f_max(f_sub(radius, half_stroke), whole(0)),
            f_div(f_sub(right, left), whole(2)),
        ),
        stroke_width,
        color,
    }
}

/// Appends the top edge of a box.
pub fn push_top_border(
    out: &mut Vec<PlanItem>,
    name: &str,
    x: Double,
    y: Double,
    width: Double,
    radius: Double,
    stroke_width: Double,
    color: &str,
)
    ensures
        items(final(out)@) == items(old(out)@).push(
            top_border(name@, x, y, width, radius, stroke_width, color@),
        ),
{
    let ghost before = out@;
    let half_stroke = halved(stroke_width);
    let left = plus(x, half_stroke);
    let right = minus(plus(x, width), half_stroke);
    let inner = minimum(
        maximum(minus(radius, half_stroke), from_count(0)),
        halved(minus(right, left)),
    );
    let item = PlanItem::TopBorder {
        name: name.to_owned(),
        left,
        right,
        top: plus(y, half_stroke),
        radius: inner,
        stroke_width,
        color: color.to_owned(),
    };
    proof {
        assert(items(before.push(item)) =~= items(before).push(item@));
    }
    out.push(item);
}

/// Appends an imported picture.
pub fn push_image(out: &mut Vec<PlanItem>, index: usize, x: Double, y: Double, size: Double)
    ensures
        items(final(out)@) == items(old(out)@).push(
            (ItemView::Image { index: index as nat, x, y, size }),
        ),
{
    let ghost before = out@;
    let item = PlanItem::Image { index, x, y, size };
    proof {
        assert(items(before.push(item)) =~= items(before).push(item@));
    }
    out.push(item);
}

/// Appends a text.
pub fn push_text(
    out: &mut Vec<PlanItem>,
    content: &str,
    x: Double,
    y: Double,
    size: Double,
    weight: u16,
    color: &str,
)
    ensures
        items(final(out)@) == items(old(out)@).push(
            text_item(content@, x, y, size, weight, color@),
        ),
{
    let ghost before = out@;
    let item = PlanItem::Text {
        content: content.to_owned(),
        x,
        y,
        size,
        weight,
        color: color.to_owned(),
    };
    proof {
        assert(items(before.push(item)) =~= items(before).push(item@));
    }
    out.push(item);
}

/// Appends an icon.
pub fn push_icon(
    out: &mut Vec<PlanItem>,
    name: &str,
    x: Double,
    y: Double,
    size: Double,
    color: &str,
)
    ensures
        items(final(out)@) == items(old(out)@).push(
            (ItemView::Icon { name: name@, x, y, size, color: color@ }),
        ),
{
    let ghost before = out@;
    let item = PlanItem::Icon {
        name: name.to_owned(),
        x,
        y,
        size,
        color: color.to_owned(),
    };
    proof {
        assert(items(before.push(item)) =~= items(before).push(item@));
    }
    out.push(item);
}

/// Where a page goes: the layer, the page's corner and its size.
#[derive(Debug, Clone, Copy, PartialEq, Eq, Structural)]
pub struct Destination {
    pub layer: u128,
    pub x: Double,
    pub y: Double,
    pub width: Double,
    pub height: Double,
}

/// What a caller asks for and what the document offers.
#[derive(Debug)]
pub struct DestinationRequest {
    pub layer: Option<u128>,
    pub active_layer: Option<u128>,
    pub viewport: Option<(Double, Double)>,
    pub board: (Double, Double),
    pub origin: Option<(Double, Double)>,
    pub board_origin: (Double, Double),
    /// The layers that exist and are not locked.
    pub open_layers: Vec<u128>,
}

impl DestinationRequest {
    /// The layer that counts: the one asked for, or the active one.
    pub open spec fn chosen_layer(self) -> Option<u128> {
        match self.layer {
            Some(l) => Some(l),
            None => self.active_layer,
        }
    }

    /// The size that counts: the viewport, or the board's.
    pub open spec fn chosen_size(self) -> (Double, Double) {
        match self.viewport {
            Some(v) => v,
            None => self.board,
        }
    }

    /// The corner that counts: the origin, or the board's.
    pub open spec fn chosen_origin(self) -> (Double, Double) {
        match self.origin {
            Some(o) => o,
            None => self.board_origin,
        }
    }
}

/// Both numbers are finite.
pub open spec fn finite_pair(p: (Double, Double)) -> bool {
    p.0.wf() && p.1.wf()
}

/// The destination, or why there is none. The size must be finite and at least
/// `min_width` by `min_height`.
pub open spec fn destination_of(
    q: DestinationRequest,
    min_width: Double,
    min_height: Double,
    size_message: Seq<char>,
    origin_message: Seq<char>,
) -> Result<Destination, Seq<char>> {
    match q.chosen_layer() {
        None => Err("Document has no active layer"@),
        Some(layer) => if !finite_pair(q.chosen_size()) || q.chosen_size().0.key()
            < min_width.key() || q.chosen_size().1.key() < min_height.key() {
            Err(size_message)
        } else if !q.open_layers@.contains(layer) {
            Err("destination layer is missing or locked"@)
        } else if !finite_pair(q.chosen_origin()) {
            Err(origin_message)
        } else {
            Ok(
                Destination {
                    layer,
                    x: q.chosen_origin().0,
                    y: q.chosen_origin().1,
                    width: q.chosen_size().0,
                    height: q.chosen_size().1,
                },
            )
        },
    }
}

/// Whether a bit pattern is a finite number.
pub fn is_finite(x: Double) -> (r: bool)
    ensures
        r == x.wf(),
{
    if x.bits >= SIGN {
        x.bits - SIGN < INFINITE
    } else {
        x.bits < INFINITE
    }
}

/// Whether `v` holds `x`.
pub fn holds(v: &Vec<u128>, x: u128) -> (r: bool)
    ensures
        r == v@.contains(x),
{
    let mut i: usize = 0;
    while i < v.len()
        invariant
            i <= v.len(),
            forall|k: int| 0 <= k < i ==> v@[k] != x,
        decreases v.len() - i,
    {
        if v[i] == x {
            return true;
        }
        i += 1;
    }
    false
}

/// Chooses the destination of a page.
pub fn choose_destination(
    q: &DestinationRequest,
    min_width: Double,
    min_height: Double,
    size_message: &str,
    origin_message: &str,
) -> (r: Result<Destination, String>)
    ensures
        match r {
            Ok(d) => destination_of(*q, min_width, min_height, size_message@, origin_message@)
                == Ok::<Destination, Seq<char>>(d) && d.x.wf() && d.y.wf() && d.width.wf()
                && d.height.wf(),
            Err(e) => destination_of(*q, min_width, min_height, size_message@, origin_message@)
                == Err::<Destination, Seq<char>>(e@),
        },
{
    let layer = match q.layer {
        Some(l) => l,
        None => match q.active_layer {
            Some(l) => l,
            None => {
                return Err("Document has no active layer".to_owned());
            },
        },
    };
    let size = match q.viewport {
        Some(v) => v,
        None => q.board,
    };
    if !is_finite(size.0) || !is_finite(size.1) || !min_width.at_most(size.0)
        || !min_height.at_most(size.1) {
        return Err(size_message.to_owned());
    }
    if !holds(&q.open_layers, layer) {
        return Err("destination layer is missing or locked".to_owned());
    }
    let origin = match q.origin {
        Some(o) => o,
        None => q.board_origin,
    };
    if !is_finite(origin.0) || !is_finite(origin.1) {
        return Err(origin_message.to_owned());
    }
    Ok(Destination { layer, x: origin.0, y: origin.1, width: size.0, height: size.1 })
}


/// The line along the top of a box lies inside the box, half of its width from the left, from
/// the right and from the top.
pub proof fn law_top_border_lies_inside(
    name: Seq<char>,
    x: Double,
    y: Double,
    width: Double,
    radius: Double,
    stroke_width: Double,
    color: Seq<char>,
    j: nat,
)
    requires
        is_plain(x, j),
        is_plain(y, j),
        is_plain(width, j),
        is_plain(stroke_width, j),
    ensures
        top_border(name, x, y, width, radius, stroke_width, color) matches ItemView::TopBorder {
            name: n,
            left,
            right,
            top,
            radius: r,
            stroke_width: s,
            color: c,
        } && n == name && c == color && s == stroke_width && 2 * (exact(left) - exact(x)) == exact(
            stroke_width,
        ) && 2 * (exact(x) + exact(width) - exact(right)) == exact(stroke_width) && 2 * (exact(top)
            - exact(y)) == exact(stroke_width),
{
    let h = (j - 1) as nat;
    lemma_plain(x, j);
    lemma_plain(y, j);
    lemma_plain(width, j);
    lemma_plain(stroke_width, j);
    lemma_half(stroke_width, j, 0x4000_0000);
    let s = half(stroke_width);
    assert(s == f_div(stroke_width, whole(2)));
    lemma_add(x, s, h, 0x8000_0000, 0x4000_0000);
    lemma_add(y, s, h, 0x8000_0000, 0x4000_0000);
    lemma_add(x, width, h, 0x8000_0000, 0x8000_0000);
    lemma_sub(f_add(x, width), s, h, 0x1_0000_0000, 0x4000_0000);
}

/// What is asked for is what comes: a layer, a viewport and an origin that are given are those
/// of the destination; without them they are the active layer's and the board's.
pub proof fn law_destination_is_what_is_asked_for(
    q: DestinationRequest,
    min_width: Double,
    min_height: Double,
    size_message: Seq<char>,
    origin_message: Seq<char>,
)
    ensures
        destination_of(q, min_width, min_height, size_message, origin_message) matches Ok(d) ==> {
            &&& q.layer matches Some(l) ==> d.layer == l
            &&& q.layer is None ==> q.active_layer == Some(d.layer)
            &&& q.viewport matches Some(v) ==> d.width == v.0 && d.height == v.1
            &&& q.viewport is None ==> d.width == q.board.0 && d.height == q.board.1
            &&& q.origin matches Some(o) ==> d.x == o.0 && d.y == o.1
            &&& q.origin is None ==> d.x == q.board_origin.0 && d.y == q.board_origin.1
            &&& d.width.key() >= min_width.key() && d.height.key() >= min_height.key()
            &&& q.open_layers@.contains(d.layer)
        },
{
}

} // verus!
