//! The nodes that figures become: their names, their layers and how they are painted.
use crate::bezier::ONE;
use crate::double::Double;
use crate::parametric::{shape_name, shape_name_of, ParametricShapeType};
use crate::scene::{parse_uuid, parsed_uuid, Color};
use crate::shapes::ONE_AND_A_HALF;
use vstd::prelude::*;

verus! {

/// 0.1 in the binary32 format.
pub const SHORT_P1: u64 = 0x3fb9_9999_a000_0000;

/// 0.2 in the binary32 format.
pub const SHORT_P2: u64 = 0x3fc9_9999_a000_0000;

/// 0.4 in the binary32 format.
pub const SHORT_P4: u64 = 0x3fd9_9999_a000_0000;

/// 0.8 in the binary32 format.
pub const SHORT_P8: u64 = 0x3fe9_9999_a000_0000;

/// 0.84 in the binary32 format.
pub const SHORT_P84: u64 = 0x3fea_e147_a000_0000;

/// 0.9 in the binary32 format.
pub const SHORT_P9: u64 = 0x3fec_cccc_c000_0000;

/// 2 as a number.
pub const TWO: u64 = 0x4000_0000_0000_0000;

/// The layer with the given id, where it can be read, or else the active one; a
/// document without layers has the layer 0.
pub open spec fn layer_or_active(text: Option<String>, active: Option<u128>) -> u128 {
    let given = match text {
        Some(t) => parsed_uuid(t@),
        None => None,
    };
    match given {
        Some(id) => id,
        None => match active {
            Some(id) => id,
            None => 0,
        },
    }
}

/// The layer with the given id, or the active one.
pub fn find_layer(text: &Option<String>, active: Option<u128>) -> (r: u128)
    ensures
        r == layer_or_active(*text, active),
{
    if let Some(t) = text {
        if let Some(id) = parse_uuid(t.as_str()) {
            return id;
        }
    }
    match active {
        Some(id) => id,
        None => 0,
    }
}

/// A figure that is drawn as one path.
#[derive(Debug, Clone, Copy, PartialEq, Eq, Structural)]
pub enum Figure {
    Curve(ParametricShapeType),
    Heart,
    Gear,
    SpeechBubble,
    Cross,
    Arrow,
    Donut,
    Sunburst,
    WavePattern,
}

/// How a figure is painted.
#[derive(Debug, Clone, Copy, PartialEq, Eq, Structural)]
pub enum FigurePaint {
    /// With the fill and the stroke that are given, as far as they are.
    Given,
    /// With the stroke that is given, and no fill.
    GivenStroke,
    /// With a fill, and no stroke.
    Filled(Color),
    /// With a fill and a stroke.
    Outlined { fill: Color, stroke: Color, width: Double },
    /// With a stroke, and no fill.
    Stroked { color: Color, width: Double },
}

/// The node of a figure.
#[derive(Debug)]
pub struct FigureNode {
    pub name: String,
    pub layer: u128,
    pub paint: FigurePaint,
}

pub open spec fn opaque(r: u64, g: u64, b: u64) -> Color {
    Color {
        r: Double { bits: r },
        g: Double { bits: g },
        b: Double { bits: b },
        a: Double { bits: ONE },
    }
}

fn opaque_color(r: u64, g: u64, b: u64) -> (c: Color)
    ensures
        c == opaque(r, g, b),
{
    Color {
        r: Double { bits: r },
        g: Double { bits: g },
        b: Double { bits: b },
        a: Double { bits: ONE },
    }
}

pub open spec fn figure_name(figure: Figure) -> Seq<char> {
    match figure {
        Figure::Curve(t) => shape_name_of(t),
        Figure::Heart => "Heart"@,
        Figure::Gear => "Gear"@,
        Figure::SpeechBubble => "Speech Bubble"@,
        Figure::Cross => "Cross"@,
        Figure::Arrow => "Arrow"@,
        Figure::Donut => "Donut"@,
        Figure::Sunburst => "Sunburst"@,
        Figure::WavePattern => "Wave Pattern"@,
    }
}

/// How a figure is painted, by whether a fill and a stroke are given. A heart is red,
/// and a speech bubble white with a black stroke, where neither is. A sunburst has
/// the colour that was read, or else gold, and waves have a blue stroke where none is
/// given.
pub open spec fn figure_paint(
    figure: Figure,
    has_fill: bool,
    has_stroke: bool,
    color: Option<Color>,
) -> FigurePaint {
    match figure {
        Figure::Heart => if has_fill || has_stroke {
            FigurePaint::Given
        } else {
            FigurePaint::Filled(opaque(SHORT_P9, SHORT_P1, SHORT_P2))
        },
        Figure::SpeechBubble => if has_fill || has_stroke {
            FigurePaint::Given
        } else {
            FigurePaint::Outlined {
                fill: opaque(ONE, ONE, ONE),
                stroke: opaque(0, 0, 0),
                width: Double { bits: TWO },
            }
        },
        Figure::Sunburst => FigurePaint::Filled(
            match color {
                Some(c) => c,
                None => opaque(ONE, SHORT_P84, 0),
            },
        ),
        Figure::WavePattern => if has_stroke {
            FigurePaint::GivenStroke
        } else {
            FigurePaint::Stroked {
                color: opaque(SHORT_P2, SHORT_P4, SHORT_P8),
                width: Double { bits: ONE_AND_A_HALF },
            }
        },
        _ => FigurePaint::Given,
    }
}

/// The node of a figure: its name, the layer with the given id or the active one, and
/// how it is painted. `color` is what the colour of a sunburst, `#FFD700` where none
/// is given, is read as.
pub fn place_figure(
    figure: Figure,
    has_fill: bool,
    has_stroke: bool,
    color: Option<Color>,
    layer_id: &Option<String>,
    active_layer: Option<u128>,
) -> (r: FigureNode)
    ensures
        r.name@ == figure_name(figure),
        r.layer == layer_or_active(*layer_id, active_layer),
        r.paint == figure_paint(figure, has_fill, has_stroke, color),
{
    let name: &str = match figure {
        Figure::Curve(t) => shape_name(t),
        Figure::Heart => "Heart",
        Figure::Gear => "Gear",
        Figure::SpeechBubble => "Speech Bubble",
        Figure::Cross => "Cross",
        Figure::Arrow => "Arrow",
        Figure::Donut => "Donut",
        Figure::Sunburst => "Sunburst",
        Figure::WavePattern => "Wave Pattern",
    };
    let paint = match figure {
        Figure::Heart => if has_fill || has_stroke {
            FigurePaint::Given
        } else {
            FigurePaint::Filled(opaque_color(SHORT_P9, SHORT_P1, SHORT_P2))
        },
        Figure::SpeechBubble => if has_fill || has_stroke {
            FigurePaint::Given
        } else {
            FigurePaint::Outlined {
                fill: opaque_color(ONE, ONE, ONE),
                stroke: opaque_color(0, 0, 0),
                width: Double { bits: TWO },
            }
        },
        Figure::Sunburst => FigurePaint::Filled(
            match color {
                Some(c) => c,
                None => opaque_color(ONE, SHORT_P84, 0),
            },
        ),
        Figure::WavePattern => if has_stroke {
            FigurePaint::GivenStroke
        } else {
            FigurePaint::Stroked {
                color: opaque_color(SHORT_P2, SHORT_P4, SHORT_P8),
                width: Double { bits: ONE_AND_A_HALF },
            }
        },
        _ => FigurePaint::Given,
    };
    FigureNode { name: name.to_owned(), layer: find_layer(layer_id, active_layer), paint }
}

} // verus!
