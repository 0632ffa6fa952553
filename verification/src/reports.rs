//! What tools say about their work, where it holds numbers.
use crate::arrange::{given_or_default, or_default};
use crate::canvas::{CenterPlan, FitPlan};
use crate::copies::{at_least_one, ScatterArgs, SplitError, TransformCopiesArgs, HALF};
use crate::decimal::{fixed, list_number, listed, show_fixed, show_number, shown};
use crate::double::Double;
use crate::find_replace::{Change, StyleEdit};
use crate::float::{at_most, f_at_most, f_max, f_min, from_count, maximum, minimum, whole};
use crate::hatch::{find_angles, find_spacing, hatch_angles, hatch_spacing, HatchArgs};
use crate::layouts::{FlexArgs, GridArgs};
use crate::outlines::{
    count_waves, wave_lines, wavelength_of, ArrowArgs, BubbleArgs, Gear, Ring, Sunburst, WaveArgs,
};
use crate::painting::{note_skipped, skipped_note};
use crate::parametric::{count_points, point_count, shape_name, shape_name_of, CurveArgs};
use crate::path_edits::{PathMeasure, SimplifyPlan};
use crate::path_tools::{
    bloats, ridges_of, NoiseArgs, NotchPlan, RoughenPlan, SmoothPlan, WarpPlan, P05,
};
use crate::scene::{id_text, push_id, ScriptPosition};
use crate::shapes::{CellGrid, Flare, PolarGrid};
use crate::text::{chars_of, decimal_text, number_text, push_all, push_str, text_of, texts};
use crate::typography::{CharacterMetrics, ParagraphOptions};
use vstd::prelude::*;

verus! {

fn push_number(out: &mut Vec<char>, x: Double)
    ensures
        final(out)@ == old(out)@ + shown(x),
{
    push_str(out, show_number(x).as_str());
}

fn push_fixed(out: &mut Vec<char>, x: Double, p: usize)
    ensures
        final(out)@ == old(out)@ + fixed(x, p as nat),
{
    push_str(out, show_fixed(x, p).as_str());
}

fn push_count(out: &mut Vec<char>, n: usize)
    ensures
        final(out)@ == old(out)@ + decimal_text(n as nat),
{
    push_all(out, &number_text(n as u64));
}

pub open spec fn flag_text(b: bool) -> Seq<char> {
    if b {
        "true"@
    } else {
        "false"@
    }
}

fn push_flag(out: &mut Vec<char>, b: bool)
    ensures
        final(out)@ == old(out)@ + flag_text(b),
{
    if b {
        push_str(out, "true");
    } else {
        push_str(out, "false");
    }
}

fn push_skipped(out: &mut Vec<char>, n: usize, behind: &str)
    ensures
        final(out)@ == old(out)@ + skipped_note(n as nat, behind@),
{
    push_str(out, note_skipped(n, behind).as_str());
}

fn count_at_least_one(n: Option<usize>, default: usize) -> (r: usize)
    requires
        default > 0,
    ensures
        r == at_least_one(n, default as nat),
{
    match n {
        Some(n) => if n >= 1 {
            n
        } else {
            1
        },
        None => default,
    }
}

fn count_ridges(ridges: Option<usize>) -> (r: usize)
    ensures
        r == ridges_of(ridges),
{
    match ridges {
        Some(n) => if n >= 1 {
            n
        } else {
            1
        },
        None => 4,
    }
}

fn find_wavelength(args: &WaveArgs) -> (r: Double)
    ensures
        r == wavelength_of(*args),
{
    maximum(given_or_default(args.wavelength, from_count(40)), Double { bits: crate::bezier::ONE })
}

pub open spec fn text_or(t: Option<String>, default: Seq<char>) -> Seq<char> {
    match t {
        Some(t) => t@,
        None => default,
    }
}

pub fn choose_text<'a>(t: &'a Option<String>, default: &'a str) -> (r: &'a str)
    ensures
        r@ == text_or(*t, default@),
{
    match t {
        Some(t) => t.as_str(),
        None => default,
    }
}

pub open spec fn str_or(t: Option<&str>, default: Seq<char>) -> Seq<char> {
    match t {
        Some(t) => t@,
        None => default,
    }
}

fn choose_str<'a>(t: Option<&'a str>, default: &'a str) -> (r: &'a str)
    ensures
        r@ == str_or(t, default@),
{
    match t {
        Some(t) => t,
        None => default,
    }
}

pub open spec fn script_text(p: ScriptPosition) -> Seq<char> {
    match p {
        ScriptPosition::Normal => "normal"@,
        ScriptPosition::Superscript => "superscript"@,
        ScriptPosition::Subscript => "subscript"@,
    }
}

fn script_name(p: ScriptPosition) -> (r: &'static str)
    ensures
        r@ == script_text(p),
{
    match p {
        ScriptPosition::Normal => "normal",
        ScriptPosition::Superscript => "superscript",
        ScriptPosition::Subscript => "subscript",
    }
}

/// What is said about a lens flare.
pub fn flare_report(cx: Double, cy: Double, flare: &Flare) -> (r: String)
    ensures
        r@ == "Created lens flare at ("@ + shown(cx) + ", "@ + shown(cy) + ") — "@
            + decimal_text(flare.rays as nat) + " rays, "@
            + decimal_text(flare.rings@.len() as nat) + " rings, halo r="@ + shown(flare.halo),
{
    let mut v = chars_of("Created lens flare at (");
    push_number(&mut v, cx);
    push_str(&mut v, ", ");
    push_number(&mut v, cy);
    push_str(&mut v, ") — ");
    push_count(&mut v, flare.rays);
    push_str(&mut v, " rays, ");
    push_count(&mut v, flare.rings.len());
    push_str(&mut v, " rings, halo r=");
    push_number(&mut v, flare.halo);
    text_of(&v)
}

/// What is said about a spiral.
pub fn spiral_report(
    name: &str,
    turns: Double,
    outer: Double,
    inner: Double,
    id: u128,
) -> (r: String)
    ensures
        r@ == "Created spiral '"@ + name@ + "' ("@ + shown(turns) + " turns, outer_r="@
            + shown(outer) + ", inner_r="@ + shown(inner) + ") id: "@ + id_text(id),
{
    let mut v = chars_of("Created spiral '");
    push_str(&mut v, name);
    push_str(&mut v, "' (");
    push_number(&mut v, turns);
    push_str(&mut v, " turns, outer_r=");
    push_number(&mut v, outer);
    push_str(&mut v, ", inner_r=");
    push_number(&mut v, inner);
    push_str(&mut v, ") id: ");
    push_id(&mut v, id);
    text_of(&v)
}

/// What is said about a polar grid.
pub fn polar_grid_report(g: &PolarGrid, outer: Double, id: u128) -> (r: String)
    ensures
        r@ == "Created polar grid '"@ + g.name@ + "' ("@ + decimal_text(g.rings as nat)
            + " rings, "@ + decimal_text(g.sectors as nat) + " sectors, outer_r="@ + shown(outer)
            + ") id: "@ + id_text(id),
{
    let mut v = chars_of("Created polar grid '");
    push_str(&mut v, g.name.as_str());
    push_str(&mut v, "' (");
    push_count(&mut v, g.rings);
    push_str(&mut v, " rings, ");
    push_count(&mut v, g.sectors);
    push_str(&mut v, " sectors, outer_r=");
    push_number(&mut v, outer);
    push_str(&mut v, ") id: ");
    push_id(&mut v, id);
    text_of(&v)
}

/// What is said about a grid of cells.
pub fn grid_report(g: &CellGrid, width: Double, height: Double, id: u128) -> (r: String)
    ensures
        r@ == "Created grid '"@ + g.name@ + "' ("@ + decimal_text(g.cols as nat) + "×"@
            + decimal_text(g.rows as nat) + " cells, "@ + shown(width) + "×"@ + shown(height)
            + " size) id: "@ + id_text(id),
{
    let mut v = chars_of("Created grid '");
    push_str(&mut v, g.name.as_str());
    push_str(&mut v, "' (");
    push_count(&mut v, g.cols);
    push_str(&mut v, "×");
    push_count(&mut v, g.rows);
    push_str(&mut v, " cells, ");
    push_number(&mut v, width);
    push_str(&mut v, "×");
    push_number(&mut v, height);
    push_str(&mut v, " size) id: ");
    push_id(&mut v, id);
    text_of(&v)
}

/// What is said about a heart.
pub fn heart_report(cx: Double, cy: Double, size: Option<Double>) -> (r: String)
    ensures
        r@ == "Created heart at ("@ + shown(cx) + ","@ + shown(cy) + "), size="@
            + shown(or_default(size, whole(60))),
{
    let mut v = chars_of("Created heart at (");
    push_number(&mut v, cx);
    push_str(&mut v, ",");
    push_number(&mut v, cy);
    push_str(&mut v, "), size=");
    push_number(&mut v, given_or_default(size, from_count(60)));
    text_of(&v)
}

/// What is said about a gear.
pub fn gear_report(g: &Gear) -> (r: String)
    ensures
        r@ == "Created gear at ("@ + shown(g.cx) + ","@ + shown(g.cy) + ") — "@
            + decimal_text(g.teeth as nat) + " teeth, outer="@ + shown(g.outer) + ", inner="@
            + shown(g.inner),
{
    let mut v = chars_of("Created gear at (");
    push_number(&mut v, g.cx);
    push_str(&mut v, ",");
    push_number(&mut v, g.cy);
    push_str(&mut v, ") — ");
    push_count(&mut v, g.teeth);
    push_str(&mut v, " teeth, outer=");
    push_number(&mut v, g.outer);
    push_str(&mut v, ", inner=");
    push_number(&mut v, g.inner);
    text_of(&v)
}

/// What is said about a speech bubble.
pub fn bubble_report(args: &BubbleArgs) -> (r: String)
    ensures
        r@ == "Created speech bubble at ("@ + shown(args.cx) + ","@ + shown(args.cy) + "), "@
            + shown(or_default(args.width, whole(120))) + "×"@
            + shown(or_default(args.height, whole(60))),
{
    let mut v = chars_of("Created speech bubble at (");
    push_number(&mut v, args.cx);
    push_str(&mut v, ",");
    push_number(&mut v, args.cy);
    push_str(&mut v, "), ");
    push_number(&mut v, given_or_default(args.width, from_count(120)));
    push_str(&mut v, "×");
    push_number(&mut v, given_or_default(args.height, from_count(60)));
    text_of(&v)
}

/// What is said about a cross.
pub fn cross_report(
    cx: Double,
    cy: Double,
    size: Option<Double>,
    thickness: Option<Double>,
) -> (r: String)
    ensures
        r@ == "Created cross at ("@ + shown(cx) + ","@ + shown(cy) + "), size="@
            + shown(or_default(size, whole(60))) + ", thickness="@
            + shown(f_min(or_default(thickness, whole(20)), or_default(size, whole(60)))),
{
    let mut v = chars_of("Created cross at (");
    push_number(&mut v, cx);
    push_str(&mut v, ",");
    push_number(&mut v, cy);
    push_str(&mut v, "), size=");
    push_number(&mut v, given_or_default(size, from_count(60)));
    push_str(&mut v, ", thickness=");
    push_number(&mut v, minimum(
            given_or_default(thickness, from_count(20)),
            given_or_default(size, from_count(60)),
        ));
    text_of(&v)
}

/// What is said about an arrow.
pub fn arrow_report(args: &ArrowArgs, degrees: Option<Double>) -> (r: String)
    ensures
        r@ == "Created arrow shape at ("@ + shown(args.x) + ","@ + shown(args.y) + ") length="@
            + shown(or_default(args.length, whole(100))) + " dir="@
            + shown(or_default(degrees, whole(0))) + "°"@,
{
    let mut v = chars_of("Created arrow shape at (");
    push_number(&mut v, args.x);
    push_str(&mut v, ",");
    push_number(&mut v, args.y);
    push_str(&mut v, ") length=");
    push_number(&mut v, given_or_default(args.length, from_count(100)));
    push_str(&mut v, " dir=");
    push_number(&mut v, given_or_default(degrees, from_count(0)));
    push_str(&mut v, "°");
    text_of(&v)
}

/// What is said about a ring.
pub fn donut_report(g: &Ring) -> (r: String)
    ensures
        r@ == "Created donut at ("@ + shown(g.cx) + ","@ + shown(g.cy) + ") — outer="@
            + shown(g.outer) + ", inner="@ + shown(g.inner),
{
    let mut v = chars_of("Created donut at (");
    push_number(&mut v, g.cx);
    push_str(&mut v, ",");
    push_number(&mut v, g.cy);
    push_str(&mut v, ") — outer=");
    push_number(&mut v, g.outer);
    push_str(&mut v, ", inner=");
    push_number(&mut v, g.inner);
    text_of(&v)
}

/// What is said about a sunburst.
pub fn sunburst_report(g: &Sunburst) -> (r: String)
    ensures
        r@ == "Created sunburst at ("@ + shown(g.cx) + ","@ + shown(g.cy) + ") — "@
            + decimal_text(g.rays as nat) + " rays, inner="@ + shown(g.inner) + ", outer="@
            + shown(g.outer),
{
    let mut v = chars_of("Created sunburst at (");
    push_number(&mut v, g.cx);
    push_str(&mut v, ",");
    push_number(&mut v, g.cy);
    push_str(&mut v, ") — ");
    push_count(&mut v, g.rays);
    push_str(&mut v, " rays, inner=");
    push_number(&mut v, g.inner);
    push_str(&mut v, ", outer=");
    push_number(&mut v, g.outer);
    text_of(&v)
}

/// What is said about a wave pattern.
pub fn wave_report(args: &WaveArgs) -> (r: String)
    ensures
        r@ == "Created wave pattern — "@ + decimal_text(wave_lines(*args))
            + " lines, wavelength="@ + shown(wavelength_of(*args)) + ", amplitude="@
            + shown(or_default(args.amplitude, whole(10))),
{
    let mut v = chars_of("Created wave pattern — ");
    push_count(&mut v, count_waves(args));
    push_str(&mut v, " lines, wavelength=");
    push_number(&mut v, find_wavelength(args));
    push_str(&mut v, ", amplitude=");
    push_number(&mut v, given_or_default(args.amplitude, from_count(10)));
    text_of(&v)
}

/// What is said about zig-zags.
pub fn zig_zag_report(
    modified: usize,
    size: Option<Double>,
    ridges: Option<usize>,
    smooth: bool,
    skipped: usize,
) -> (r: String)
    ensures
        r@ == "Applied zig-zag to "@ + decimal_text(modified as nat) + " node(s) (size="@
            + shown(or_default(size, whole(10))) + ", ridges="@
            + decimal_text(ridges_of(ridges) as nat) + ", smooth="@ + flag_text(smooth) + ")"@
            + skipped_note(skipped as nat, " skipped"@),
{
    let mut v = chars_of("Applied zig-zag to ");
    push_count(&mut v, modified);
    push_str(&mut v, " node(s) (size=");
    push_number(&mut v, given_or_default(size, from_count(10)));
    push_str(&mut v, ", ridges=");
    push_count(&mut v, count_ridges(ridges));
    push_str(&mut v, ", smooth=");
    push_flag(&mut v, smooth);
    push_str(&mut v, ")");
    push_skipped(&mut v, skipped, " skipped");
    text_of(&v)
}

/// What is said about paths that swell or shrink.
pub fn pucker_bloat_report(modified: usize, strength: Option<Double>, skipped: usize) -> (r: String)
    ensures
        r@ == "Applied "@
            + (if f_at_most(Double { bits: 0 }, or_default(strength, Double { bits: HALF })) {
            "bloat"@
        } else {
            "pucker"@
        })
            + " (strength="@ + shown(or_default(strength, Double { bits: HALF })) + ") to "@
            + decimal_text(modified as nat) + " node(s)"@
            + skipped_note(skipped as nat, " skipped"@),
{
    let mut v = chars_of("Applied ");
    push_str(
        &mut v,
        if bloats(strength) {
            "bloat"
        } else {
            "pucker"
        },
    );
    push_str(&mut v, " (strength=");
    push_number(&mut v, given_or_default(strength, Double { bits: HALF }));
    push_str(&mut v, ") to ");
    push_count(&mut v, modified);
    push_str(&mut v, " node(s)");
    push_skipped(&mut v, skipped, " skipped");
    text_of(&v)
}

/// What is said about roughened paths.
pub fn roughen_report(modified: usize, plan: &RoughenPlan, skipped: usize) -> (r: String)
    ensures
        r@ == "Roughened "@ + decimal_text(modified as nat) + " node(s) (size="@
            + shown(plan.size) + ", detail="@ + decimal_text(plan.detail as nat) + ")"@
            + skipped_note(skipped as nat, " skipped"@),
{
    let mut v = chars_of("Roughened ");
    push_count(&mut v, modified);
    push_str(&mut v, " node(s) (size=");
    push_number(&mut v, plan.size);
    push_str(&mut v, ", detail=");
    push_count(&mut v, plan.detail);
    push_str(&mut v, ")");
    push_skipped(&mut v, skipped, " skipped");
    text_of(&v)
}

/// What is said about twirled paths.
pub fn twirl_report(modified: usize, degrees: Option<Double>, skipped: usize) -> (r: String)
    ensures
        r@ == "Twirled "@ + decimal_text(modified as nat) + " node(s) by "@
            + shown(or_default(degrees, whole(90))) + "°"@
            + skipped_note(skipped as nat, " skipped"@),
{
    let mut v = chars_of("Twirled ");
    push_count(&mut v, modified);
    push_str(&mut v, " node(s) by ");
    push_number(&mut v, given_or_default(degrees, from_count(90)));
    push_str(&mut v, "°");
    push_skipped(&mut v, skipped, " skipped");
    text_of(&v)
}

/// What is said about rounded corners.
pub fn round_corners_report(modified: usize, radius: Option<Double>, skipped: usize) -> (r: String)
    ensures
        r@ == "Rounded corners on "@ + decimal_text(modified as nat) + " node(s) (radius="@
            + shown(f_max(or_default(radius, whole(10)), whole(0))) + ")"@
            + skipped_note(skipped as nat, " skipped"@),
{
    let mut v = chars_of("Rounded corners on ");
    push_count(&mut v, modified);
    push_str(&mut v, " node(s) (radius=");
    push_number(&mut v, maximum(given_or_default(radius, from_count(10)), from_count(0)));
    push_str(&mut v, ")");
    push_skipped(&mut v, skipped, " skipped");
    text_of(&v)
}

/// What is said about warped paths.
pub fn warp_report(kind: &str, modified: usize, plan: &WarpPlan, skipped: usize) -> (r: String)
    ensures
        r@ == "Applied '"@ + kind@ + "' warp to "@ + decimal_text(modified as nat)
            + " node(s) (bend="@ + shown(plan.bend) + ")"@
            + skipped_note(skipped as nat, " skipped"@),
{
    let mut v = chars_of("Applied '");
    push_str(&mut v, kind);
    push_str(&mut v, "' warp to ");
    push_count(&mut v, modified);
    push_str(&mut v, " node(s) (bend=");
    push_number(&mut v, plan.bend);
    push_str(&mut v, ")");
    push_skipped(&mut v, skipped, " skipped");
    text_of(&v)
}

/// What is said about scallops.
pub fn scallop_report(modified: usize, plan: &NotchPlan, skipped: usize) -> (r: String)
    ensures
        r@ == "Applied scallop to "@ + decimal_text(modified as nat) + " node(s) (depth="@
            + shown(plan.size) + ", count="@ + decimal_text(plan.count as nat) + ")"@
            + skipped_note(skipped as nat, " skipped"@),
{
    let mut v = chars_of("Applied scallop to ");
    push_count(&mut v, modified);
    push_str(&mut v, " node(s) (depth=");
    push_number(&mut v, plan.size);
    push_str(&mut v, ", count=");
    push_count(&mut v, plan.count);
    push_str(&mut v, ")");
    push_skipped(&mut v, skipped, " skipped");
    text_of(&v)
}

/// What is said about crystals.
pub fn crystallize_report(modified: usize, plan: &NotchPlan, skipped: usize) -> (r: String)
    ensures
        r@ == "Applied crystallize to "@ + decimal_text(modified as nat) + " node(s) (size="@
            + shown(plan.size) + ", count="@ + decimal_text(plan.count as nat) + ")"@
            + skipped_note(skipped as nat, " skipped"@),
{
    let mut v = chars_of("Applied crystallize to ");
    push_count(&mut v, modified);
    push_str(&mut v, " node(s) (size=");
    push_number(&mut v, plan.size);
    push_str(&mut v, ", count=");
    push_count(&mut v, plan.count);
    push_str(&mut v, ")");
    push_skipped(&mut v, skipped, " skipped");
    text_of(&v)
}

/// What is said about paths with noise.
pub fn noise_report(args: &NoiseArgs, modified: usize, skipped: usize) -> (r: String)
    ensures
        r@ == "Noise-deformed "@ + decimal_text(modified as nat) + " path node(s) (amplitude="@
            + fixed(or_default(args.amplitude, whole(8)), 1) + ", frequency="@
            + fixed(or_default(args.frequency, Double { bits: P05 }), 4) + ", axis="@
            + text_or(args.axis, "both"@) + ", seed="@
            + fixed(or_default(args.seed, whole(0)), 2) + "). Skipped: "@
            + decimal_text(skipped as nat) + "."@,
{
    let mut v = chars_of("Noise-deformed ");
    push_count(&mut v, modified);
    push_str(&mut v, " path node(s) (amplitude=");
    push_fixed(&mut v, given_or_default(args.amplitude, from_count(8)), 1);
    push_str(&mut v, ", frequency=");
    push_fixed(&mut v, given_or_default(args.frequency, Double { bits: P05 }), 4);
    push_str(&mut v, ", axis=");
    push_str(&mut v, choose_text(&args.axis, "both"));
    push_str(&mut v, ", seed=");
    push_fixed(&mut v, given_or_default(args.seed, from_count(0)), 2);
    push_str(&mut v, "). Skipped: ");
    push_count(&mut v, skipped);
    push_str(&mut v, ".");
    text_of(&v)
}

/// What is said about anchors that were moved together with those near them.
pub fn proportional_report(
    primary: usize,
    dx: Double,
    dy: Double,
    affected: usize,
    spread: Double,
    curve: Double,
) -> (r: String)
    ensures
        r@ == "Proportionally moved "@ + decimal_text(primary as nat)
            + " primary anchor(s) by ("@ + shown(dx) + ", "@ + shown(dy) + "); "@
            + decimal_text(affected as nat) + " anchor(s) affected within spread "@
            + shown(spread) + " (curve "@ + shown(curve) + ")"@,
{
    let mut v = chars_of("Proportionally moved ");
    push_count(&mut v, primary);
    push_str(&mut v, " primary anchor(s) by (");
    push_number(&mut v, dx);
    push_str(&mut v, ", ");
    push_number(&mut v, dy);
    push_str(&mut v, "); ");
    push_count(&mut v, affected);
    push_str(&mut v, " anchor(s) affected within spread ");
    push_number(&mut v, spread);
    push_str(&mut v, " (curve ");
    push_number(&mut v, curve);
    push_str(&mut v, ")");
    text_of(&v)
}

/// What is said about a path that was measured.
pub fn measure_report(name: &str, m: &PathMeasure) -> (r: String)
    ensures
        r@ == "Path '"@ + name@ + "': length="@ + fixed(m.length, 1) + ", "@
            + decimal_text(m.anchors as nat) + " anchors, "@ + decimal_text(m.segments as nat)
            + " segments, "@
            + (if m.closed {
            "closed"@
        } else {
            "open"@
        }),
{
    let mut v = chars_of("Path '");
    push_str(&mut v, name);
    push_str(&mut v, "': length=");
    push_fixed(&mut v, m.length, 1);
    push_str(&mut v, ", ");
    push_count(&mut v, m.anchors);
    push_str(&mut v, " anchors, ");
    push_count(&mut v, m.segments);
    push_str(&mut v, " segments, ");
    push_str(
        &mut v,
        if m.closed {
            "closed"
        } else {
            "open"
        },
    );
    text_of(&v)
}

/// What is said about offset paths.
pub fn offset_report(processed: usize, distance: Double, skipped: usize) -> (r: String)
    ensures
        r@ == "Offset "@ + decimal_text(processed as nat) + " path(s) by "@
            + (if f_at_most(Double { bits: 0 }, distance) {
            "+"@
        } else {
            ""@
        })
            + fixed(distance, 1) + " units"@ + skipped_note(skipped as nat, " node(s) skipped"@),
{
    let mut v = chars_of("Offset ");
    push_count(&mut v, processed);
    push_str(&mut v, " path(s) by ");
    push_str(
        &mut v,
        if at_most(Double { bits: 0 }, distance) {
            "+"
        } else {
            ""
        },
    );
    push_fixed(&mut v, distance, 1);
    push_str(&mut v, " units");
    push_skipped(&mut v, skipped, " node(s) skipped");
    text_of(&v)
}

/// What is said about smoothed paths.
pub fn smooth_report(plan: &SmoothPlan) -> (r: String)
    ensures
        r@ == "Smoothed "@ + decimal_text(plan.positions@.len() as nat)
            + " path node(s) with factor="@ + fixed(plan.factor, 2) + ", iterations="@
            + decimal_text(plan.iterations as nat) + "."@,
{
    let mut v = chars_of("Smoothed ");
    push_count(&mut v, plan.positions.len());
    push_str(&mut v, " path node(s) with factor=");
    push_fixed(&mut v, plan.factor, 2);
    push_str(&mut v, ", iterations=");
    push_count(&mut v, plan.iterations);
    push_str(&mut v, ".");
    text_of(&v)
}

/// What is said about a curve.
pub fn parametric_report(args: &CurveArgs) -> (r: String)
    ensures
        r@ == "Created "@ + shape_name_of(args.shape_type) + " at ("@ + shown(args.cx) + ","@
            + shown(args.cy) + ") with "@ + decimal_text(point_count(*args)) + " points"@,
{
    let mut v = chars_of("Created ");
    push_str(&mut v, shape_name(args.shape_type));
    push_str(&mut v, " at (");
    push_number(&mut v, args.cx);
    push_str(&mut v, ",");
    push_number(&mut v, args.cy);
    push_str(&mut v, ") with ");
    push_count(&mut v, count_points(args));
    push_str(&mut v, " points");
    text_of(&v)
}

/// What is said about the colours at a point.
pub fn fill_report(name: &str, fill: Option<&str>, stroke: Option<&str>) -> (r: String)
    ensures
        r@ == "Sampled '"@ + name@ + "': fill="@ + str_or(fill, "none"@) + ", stroke="@
            + str_or(stroke, "none"@),
{
    let mut v = chars_of("Sampled '");
    push_str(&mut v, name);
    push_str(&mut v, "': fill=");
    push_str(&mut v, choose_str(fill, "none"));
    push_str(&mut v, ", stroke=");
    push_str(&mut v, choose_str(stroke, "none"));
    text_of(&v)
}

/// What is said about the pixel at a point.
pub fn pixel_report(name: &str, hex: &str) -> (r: String)
    ensures
        r@ == "Sampled '"@ + name@ + "': color="@ + hex@ + " (raster pixel)"@,
{
    let mut v = chars_of("Sampled '");
    push_str(&mut v, name);
    push_str(&mut v, "': color=");
    push_str(&mut v, hex);
    push_str(&mut v, " (raster pixel)");
    text_of(&v)
}

/// What is said about a point where there is nothing.
pub fn nothing_report(x: Double, y: Double) -> (r: String)
    ensures
        r@ == "No node at ("@ + shown(x) + ", "@ + shown(y) + ")"@,
{
    let mut v = chars_of("No node at (");
    push_number(&mut v, x);
    push_str(&mut v, ", ");
    push_number(&mut v, y);
    push_str(&mut v, ")");
    text_of(&v)
}

/// What is said about groups that were taken apart.
pub fn flatten_report(ungrouped: usize) -> (r: String)
    ensures
        r@ == "Flattened "@ + decimal_text(ungrouped as nat) + " group(s)"@,
{
    let mut v = chars_of("Flattened ");
    push_count(&mut v, ungrouped);
    push_str(&mut v, " group(s)");
    text_of(&v)
}

/// What is said about centred artwork.
pub fn center_report(plan: &CenterPlan) -> (r: String)
    ensures
        r@ == "Centered "@ + decimal_text(plan.positions@.len() as nat)
            + " node(s) on canvas (dx="@ + fixed(plan.dx, 1) + ", dy="@ + fixed(plan.dy, 1)
            + ")"@,
{
    let mut v = chars_of("Centered ");
    push_count(&mut v, plan.positions.len());
    push_str(&mut v, " node(s) on canvas (dx=");
    push_fixed(&mut v, plan.dx, 1);
    push_str(&mut v, ", dy=");
    push_fixed(&mut v, plan.dy, 1);
    push_str(&mut v, ")");
    text_of(&v)
}

/// What is said about fitted artwork.
pub fn fit_report(plan: &FitPlan) -> (r: String)
    ensures
        r@ == "Fit "@ + decimal_text(plan.positions@.len() as nat)
            + " node(s) to canvas (scale="@ + fixed(plan.fit.scale, 2) + ")"@,
{
    let mut v = chars_of("Fit ");
    push_count(&mut v, plan.positions.len());
    push_str(&mut v, " node(s) to canvas (scale=");
    push_fixed(&mut v, plan.fit.scale, 2);
    push_str(&mut v, ")");
    text_of(&v)
}

/// What is said about scattered copies.
pub fn scatter_report(args: &ScatterArgs, name: &str) -> (r: String)
    ensures
        r@ == "Scattered "@ + decimal_text(at_least_one(args.count, 20)) + " copies of '"@
            + name@ + "' in area ("@ + shown(args.x) + ","@ + shown(args.y) + ") "@
            + shown(args.width) + "×"@ + shown(args.height),
{
    let mut v = chars_of("Scattered ");
    push_count(&mut v, count_at_least_one(args.count, 20));
    push_str(&mut v, " copies of '");
    push_str(&mut v, name);
    push_str(&mut v, "' in area (");
    push_number(&mut v, args.x);
    push_str(&mut v, ",");
    push_number(&mut v, args.y);
    push_str(&mut v, ") ");
    push_number(&mut v, args.width);
    push_str(&mut v, "×");
    push_number(&mut v, args.height);
    text_of(&v)
}

/// What is said about transformed copies.
pub fn transform_copies_report(
    args: &TransformCopiesArgs,
    name: &str,
    degrees: Option<Double>,
    scale: Option<Double>,
) -> (r: String)
    ensures
        r@ == "Created "@ + decimal_text(at_least_one(args.copies, 5)) + " copies of '"@ + name@
            + "' (translate=["@ + shown(or_default(args.translate_x, whole(0))) + ","@
            + shown(or_default(args.translate_y, whole(0))) + "], rotate="@
            + shown(or_default(degrees, whole(0))) + "°, scale="@
            + shown(or_default(scale, whole(1))) + ")"@,
{
    let mut v = chars_of("Created ");
    push_count(&mut v, count_at_least_one(args.copies, 5));
    push_str(&mut v, " copies of '");
    push_str(&mut v, name);
    push_str(&mut v, "' (translate=[");
    push_number(&mut v, given_or_default(args.translate_x, from_count(0)));
    push_str(&mut v, ",");
    push_number(&mut v, given_or_default(args.translate_y, from_count(0)));
    push_str(&mut v, "], rotate=");
    push_number(&mut v, given_or_default(degrees, from_count(0)));
    push_str(&mut v, "°, scale=");
    push_number(&mut v, given_or_default(scale, from_count(1)));
    push_str(&mut v, ")");
    text_of(&v)
}

/// What is said about children in a row or a column.
pub fn flex_report(args: &FlexArgs, arranged: usize) -> (r: String)
    ensures
        r@ == "Applied "@ + text_or(args.direction, "row"@) + " flex layout to "@
            + decimal_text(arranged as nat) + " children (gap="@
            + shown(or_default(args.gap, whole(8))) + ", align="@
            + text_or(args.align, "center"@) + ", padding="@
            + shown(or_default(args.padding, whole(0))) + ")."@,
{
    let mut v = chars_of("Applied ");
    push_str(&mut v, choose_text(&args.direction, "row"));
    push_str(&mut v, " flex layout to ");
    push_count(&mut v, arranged);
    push_str(&mut v, " children (gap=");
    push_number(&mut v, given_or_default(args.gap, from_count(8)));
    push_str(&mut v, ", align=");
    push_str(&mut v, choose_text(&args.align, "center"));
    push_str(&mut v, ", padding=");
    push_number(&mut v, given_or_default(args.padding, from_count(0)));
    push_str(&mut v, ").");
    text_of(&v)
}

/// What is said about stacked children.
pub fn stack_report(
    count: usize,
    group: &str,
    align_h: &Option<String>,
    align_v: &Option<String>,
) -> (r: String)
    ensures
        r@ == "Stacked "@ + decimal_text(count as nat) + " children in '"@ + group@
            + "' (align_h="@ + text_or(*align_h, "center"@) + ", align_v="@
            + text_or(*align_v, "center"@) + ")."@,
{
    let mut v = chars_of("Stacked ");
    push_count(&mut v, count);
    push_str(&mut v, " children in '");
    push_str(&mut v, group);
    push_str(&mut v, "' (align_h=");
    push_str(&mut v, choose_text(align_h, "center"));
    push_str(&mut v, ", align_v=");
    push_str(&mut v, choose_text(align_v, "center"));
    push_str(&mut v, ").");
    text_of(&v)
}

/// What is said about children in a grid.
pub fn grid_layout_report(args: &GridArgs, arranged: usize, cols: usize, rows: usize) -> (r: String)
    ensures
        r@ == "Applied grid layout to "@ + decimal_text(arranged as nat) + " children ("@
            + decimal_text(cols as nat) + " cols × "@ + decimal_text(rows as nat)
            + " rows, gap="@ + shown(or_default(args.gap_x, whole(8))) + "×"@
            + shown(or_default(args.gap_y, whole(8))) + ")."@,
{
    let mut v = chars_of("Applied grid layout to ");
    push_count(&mut v, arranged);
    push_str(&mut v, " children (");
    push_count(&mut v, cols);
    push_str(&mut v, " cols × ");
    push_count(&mut v, rows);
    push_str(&mut v, " rows, gap=");
    push_number(&mut v, given_or_default(args.gap_x, from_count(8)));
    push_str(&mut v, "×");
    push_number(&mut v, given_or_default(args.gap_y, from_count(8)));
    push_str(&mut v, ").");
    text_of(&v)
}

/// What is said about the metrics of characters.
pub fn metrics_report(name: &str, m: &CharacterMetrics) -> (r: String)
    ensures
        r@ == "Character metrics on '"@ + name@ + "' set: baseline_shift="@
            + shown(m.baseline_shift) + ", script_position="@ + script_text(m.script_position)
            + "."@,
{
    let mut v = chars_of("Character metrics on '");
    push_str(&mut v, name);
    push_str(&mut v, "' set: baseline_shift=");
    push_number(&mut v, m.baseline_shift);
    push_str(&mut v, ", script_position=");
    push_str(&mut v, script_name(m.script_position));
    push_str(&mut v, ".");
    text_of(&v)
}

/// What is said about a text on a path.
pub fn text_path_report(text: &str, path: &str, offset: Double) -> (r: String)
    ensures
        r@ == "Text node '"@ + text@ + "' now follows path '"@ + path@ + "'  (offset: "@
            + fixed(offset, 1) + ")."@,
{
    let mut v = chars_of("Text node '");
    push_str(&mut v, text);
    push_str(&mut v, "' now follows path '");
    push_str(&mut v, path);
    push_str(&mut v, "'  (offset: ");
    push_fixed(&mut v, offset, 1);
    push_str(&mut v, ").");
    text_of(&v)
}

/// What is said about the options of a paragraph.
pub fn paragraph_report(name: &str, o: &ParagraphOptions) -> (r: String)
    ensures
        r@ == "Paragraph options on '"@ + name@ + "': spacing_before="@
            + fixed(o.spacing_before, 1) + ", spacing_after="@ + fixed(o.spacing_after, 1)
            + ", indent="@ + fixed(o.indent, 1) + "."@,
{
    let mut v = chars_of("Paragraph options on '");
    push_str(&mut v, name);
    push_str(&mut v, "': spacing_before=");
    push_fixed(&mut v, o.spacing_before, 1);
    push_str(&mut v, ", spacing_after=");
    push_fixed(&mut v, o.spacing_after, 1);
    push_str(&mut v, ", indent=");
    push_fixed(&mut v, o.indent, 1);
    push_str(&mut v, ".");
    text_of(&v)
}

/// What is said about a simpler path, or about the one that a dry run would make.
pub fn simplify_report(plan: &SimplifyPlan, name: &str, original: usize, simplified: usize) -> (r:
    String)
    ensures
        r@ == if plan.applied {
            "Simplified '"@ + name@ + "': "@ + decimal_text(original as nat) + " → "@
                + decimal_text(simplified as nat) + " points ("@ + fixed(plan.reduction, 0)
                + "% reduction)"@
        } else {
            "Dry run: '"@ + name@ + "' — "@ + decimal_text(original as nat) + " points → "@
                + decimal_text(simplified as nat) + " points ("@ + fixed(plan.reduction, 0)
                + "% reduction)"@
        },
{
    let mut v: Vec<char>;
    if plan.applied {
        v = chars_of("Simplified '");
        push_str(&mut v, name);
        push_str(&mut v, "': ");
        push_count(&mut v, original);
        push_str(&mut v, " → ");
    } else {
        v = chars_of("Dry run: '");
        push_str(&mut v, name);
        push_str(&mut v, "' — ");
        push_count(&mut v, original);
        push_str(&mut v, " points → ");
    }
    push_count(&mut v, simplified);
    push_str(&mut v, " points (");
    push_fixed(&mut v, plan.reduction, 0);
    push_str(&mut v, "% reduction)");
    text_of(&v)
}

/// What is said about hatched shapes; an error where there is none.
pub fn hatch_report(args: &HatchArgs, created: usize, skipped: usize) -> (r: Result<String, String>)
    ensures
        match r {
            Err(e) => created == 0 && e@ == "No valid path nodes found for hatch fill"@,
            Ok(t) => created > 0 && t@ == "Created hatch fill for "@ + decimal_text(created as nat)
                + " node(s) (spacing="@ + shown(hatch_spacing(*args)) + ", angle="@ + shown(
                hatch_angles(*args)[0],
            ) + "°)"@ + skipped_note(skipped as nat, " skipped"@),
        },
{
    if created == 0 {
        return Err("No valid path nodes found for hatch fill".to_owned());
    }
    let angles = find_angles(args);
    let mut v = chars_of("Created hatch fill for ");
    push_count(&mut v, created);
    push_str(&mut v, " node(s) (spacing=");
    push_number(&mut v, find_spacing(args));
    push_str(&mut v, ", angle=");
    push_number(&mut v, angles[0]);
    push_str(&mut v, "°)");
    push_skipped(&mut v, skipped, " skipped");
    Ok(text_of(&v))
}

/// What is said about stippled shapes; an error where there is none.
pub fn stipple_report(count: Option<usize>, created: usize, skipped: usize) -> (r: Result<
    String,
    String,
>)
    ensures
        match r {
            Err(e) => created == 0 && e@ == "No valid path nodes found for stipple fill"@,
            Ok(t) => created > 0 && t@ == "Created stipple fill for "@ + decimal_text(
                created as nat,
            ) + " node(s) ("@ + decimal_text(at_least_one(count, 200)) + " dots each)"@
                + skipped_note(skipped as nat, " skipped"@),
        },
{
    if created == 0 {
        return Err("No valid path nodes found for stipple fill".to_owned());
    }
    let mut v = chars_of("Created stipple fill for ");
    push_count(&mut v, created);
    push_str(&mut v, " node(s) (");
    push_count(&mut v, count_at_least_one(count, 200));
    push_str(&mut v, " dots each)");
    push_skipped(&mut v, skipped, " skipped");
    Ok(text_of(&v))
}

/// Numbers between brackets.
pub open spec fn list_of(xs: Seq<Double>, n: nat) -> Seq<char>
    decreases n,
{
    if n == 0 {
        "["@
    } else if n == 1 {
        list_of(xs, 0) + listed(xs[0])
    } else {
        list_of(xs, (n - 1) as nat) + ", "@ + listed(xs[n - 1])
    }
}

fn push_list(out: &mut Vec<char>, xs: &Vec<Double>)
    ensures
        final(out)@ == old(out)@ + (list_of(xs@, xs@.len()) + "]"@),
{
    let ghost start = out@;
    push_str(out, "[");
    let mut i: usize = 0;
    while i < xs.len()
        invariant
            i <= xs.len(),
            out@ == start + list_of(xs@, i as nat),
        decreases xs.len() - i,
    {
        let ghost before = list_of(xs@, i as nat);
        if i > 0 {
            push_str(out, ", ");
        }
        push_str(out, list_number(xs[i]).as_str());
        i += 1;
        assert(out@ =~= start + list_of(xs@, i as nat));
    }
    push_str(out, "]");
    assert(out@ =~= start + (list_of(xs@, xs@.len()) + "]"@));
}

/// What is said about the tab stops of a text.
pub fn tab_stops_report(name: &str, stops: &Vec<Double>) -> (r: String)
    ensures
        r@ == "Set "@ + decimal_text(stops@.len()) + " tab stop(s) on '"@ + name@ + "': "@ + (
        list_of(stops@, stops@.len()) + "]"@),
{
    let mut v = chars_of("Set ");
    push_count(&mut v, stops.len());
    push_str(&mut v, " tab stop(s) on '");
    push_str(&mut v, name);
    push_str(&mut v, "': ");
    push_list(&mut v, stops);
    text_of(&v)
}

/// Why a path is not split, in words.
pub fn split_report(e: &SplitError) -> (r: String)
    ensures
        r@ == match *e {
            SplitError::Message(m) => m@,
            SplitError::NoWidth(gutter, width) => "gutter_x ("@ + shown(gutter)
                + ") is too large — cells would have non-positive width ("@ + fixed(width, 2)
                + ")"@,
            SplitError::NoHeight(gutter, height) => "gutter_y ("@ + shown(gutter)
                + ") is too large — cells would have non-positive height ("@ + fixed(height, 2)
                + ")"@,
        },
{
    match e {
        SplitError::Message(m) => text_of(&chars_of(m.as_str())),
        SplitError::NoWidth(gutter, width) => {
            let mut v = chars_of("gutter_x (");
            push_number(&mut v, *gutter);
            push_str(&mut v, ") is too large — cells would have non-positive width (");
            push_fixed(&mut v, *width, 2);
            push_str(&mut v, ")");
            text_of(&v)
        },
        SplitError::NoHeight(gutter, height) => {
            let mut v = chars_of("gutter_y (");
            push_number(&mut v, *gutter);
            push_str(&mut v, ") is too large — cells would have non-positive height (");
            push_fixed(&mut v, *height, 2);
            push_str(&mut v, ")");
            text_of(&v)
        },
    }
}

/// What the text of a change needs besides the change: how its colours are written, and
/// for a gradient stop its offset in percent, for a fluid point its coordinates.
#[derive(Debug)]
pub struct ChangeWords {
    pub from: String,
    pub to: String,
    pub at: (Double, Double),
}

/// Two texts with an arrow between them.
pub open spec fn arrow_between(from: Seq<char>, to: Seq<char>) -> Seq<char> {
    from + " → "@ + to
}

/// The text of a change. `family` holds the font families where they are replaced.
pub open spec fn change_text(
    change: Change,
    family: Option<(String, String)>,
    words: ChangeWords,
) -> Seq<char> {
    let colors = arrow_between(words.from@, words.to@);
    match change {
        Change::Fill { from, to } => "fill: "@ + colors,
        Change::GradientStop { index, from, to } => "gradient stop @"@ + fixed(words.at.0, 0)
            + "%: "@ + colors,
        Change::FluidPoint { index, from, to } => "fluid point ("@ + fixed(words.at.0, 0) + ","@
            + fixed(words.at.1, 0) + "): "@ + colors,
        Change::MeshCell { index, from, to } => "mesh cell "@ + decimal_text(index as nat) + ": "@
            + colors,
        Change::Stroke { from, to } => "stroke: "@ + colors,
        Change::StrokeWidth { was, becomes } => "stroke-width: "@ + arrow_between(
            shown(was),
            shown(becomes),
        ),
        Change::FontFamily => "font-family: "@ + (match family {
            Some((from, to)) => arrow_between(from@, to@),
            None => ""@,
        }),
        Change::Opacity { was, becomes } => "opacity: "@ + arrow_between(
            fixed(was, 2),
            fixed(becomes, 2),
        ),
    }
}

fn push_arrow(out: &mut Vec<char>, from: &str, to: &str)
    ensures
        final(out)@ == old(out)@ + arrow_between(from@, to@),
{
    let ghost start = out@;
    push_str(out, from);
    push_str(out, " → ");
    push_str(out, to);
    assert(out@ =~= start + arrow_between(from@, to@));
}

fn change_report(change: &Change, family: &Option<(String, String)>, words: &ChangeWords) -> (r: String)
    ensures
        r@ == change_text(*change, *family, *words),
{
    let mut v: Vec<char>;
    match change {
        Change::Fill { from, to } => {
            v = chars_of("fill: ");
            push_arrow(&mut v, words.from.as_str(), words.to.as_str());
        },
        Change::GradientStop { index, from, to } => {
            v = chars_of("gradient stop @");
            push_fixed(&mut v, words.at.0, 0);
            push_str(&mut v, "%: ");
            push_arrow(&mut v, words.from.as_str(), words.to.as_str());
        },
        Change::FluidPoint { index, from, to } => {
            v = chars_of("fluid point (");
            push_fixed(&mut v, words.at.0, 0);
            push_str(&mut v, ",");
            push_fixed(&mut v, words.at.1, 0);
            push_str(&mut v, "): ");
            push_arrow(&mut v, words.from.as_str(), words.to.as_str());
        },
        Change::MeshCell { index, from, to } => {
            v = chars_of("mesh cell ");
            push_all(&mut v, &number_text(*index as u64));
            push_str(&mut v, ": ");
            push_arrow(&mut v, words.from.as_str(), words.to.as_str());
        },
        Change::Stroke { from, to } => {
            v = chars_of("stroke: ");
            push_arrow(&mut v, words.from.as_str(), words.to.as_str());
        },
        Change::StrokeWidth { was, becomes } => {
            v = chars_of("stroke-width: ");
            let old_width = show_number(*was);
            let new_width = show_number(*becomes);
            push_arrow(&mut v, old_width.as_str(), new_width.as_str());
        },
        Change::FontFamily => {
            v = chars_of("font-family: ");
            match family {
                Some((from, to)) => {
                    push_arrow(&mut v, from.as_str(), to.as_str());
                },
                None => {
                    push_str(&mut v, "");
                },
            }
        },
        Change::Opacity { was, becomes } => {
            v = chars_of("opacity: ");
            let old_opacity = show_fixed(*was, 2);
            let new_opacity = show_fixed(*becomes, 2);
            push_arrow(&mut v, old_opacity.as_str(), new_opacity.as_str());
        },
    }
    text_of(&v)
}

/// The texts of the changes of a node, in their order. `words` holds what each of them
/// needs.
pub fn style_edit_report(edit: &StyleEdit, words: &Vec<ChangeWords>) -> (r: Vec<String>)
    requires
        words.len() == edit.changes.len(),
    ensures
        texts(r@) == Seq::new(
            edit.changes@.len(),
            |i: int| change_text(edit.changes@[i], edit.family, words@[i]),
        ),
{
    let ghost goal = Seq::new(
        edit.changes@.len(),
        |i: int| change_text(edit.changes@[i], edit.family, words@[i]),
    );
    let mut out: Vec<String> = Vec::new();
    let mut i: usize = 0;
    assert(texts(out@) =~= goal.take(0));
    while i < words.len()
        invariant
            i <= words.len(),
            words.len() == edit.changes.len(),
            goal == Seq::new(
                edit.changes@.len(),
                |i: int| change_text(edit.changes@[i], edit.family, words@[i]),
            ),
            texts(out@) == goal.take(i as int),
        decreases words.len() - i,
    {
        let ghost before = out@;
        out.push(change_report(&edit.changes[i], &edit.family, &words[i]));
        i += 1;
        assert(texts(out@) =~= texts(before).push(goal[i - 1]));
        assert(goal.take(i as int) =~= goal.take(i - 1).push(goal[i - 1]));
    }
    assert(texts(out@) =~= goal);
    out
}


/// A change is told from what was to what becomes: the text ends with the new value, and has
/// the old one before the arrow.
pub proof fn law_changes_are_told_forwards(
    change: Change,
    family: Option<(String, String)>,
    words: ChangeWords,
)
    ensures
        ({
            let t = change_text(change, family, words);
            &&& change is Fill || change is GradientStop || change is FluidPoint || change
                is MeshCell || change is Stroke ==> is_told(t, words.from@, words.to@)
            &&& change matches Change::StrokeWidth { was, becomes } ==> is_told(
                t,
                shown(was),
                shown(becomes),
            )
            &&& change matches Change::Opacity { was, becomes } ==> is_told(
                t,
                fixed(was, 2),
                fixed(becomes, 2),
            )
            &&& change is FontFamily && family is Some ==> is_told(
                t,
                (family->0).0@,
                (family->0).1@,
            )
        }),
{
    let t = change_text(change, family, words);
    match change {
        Change::Fill { from, to } => {
            lemma_told("fill: "@, words.from@, words.to@);
        },
        Change::GradientStop { index, from, to } => {
            lemma_told(
                "gradient stop @"@ + fixed(words.at.0, 0) + "%: "@,
                words.from@,
                words.to@,
            );
        },
        Change::FluidPoint { index, from, to } => {
            lemma_told(
                "fluid point ("@ + fixed(words.at.0, 0) + ","@ + fixed(words.at.1, 0) + "): "@,
                words.from@,
                words.to@,
            );
        },
        Change::MeshCell { index, from, to } => {
            lemma_told("mesh cell "@ + decimal_text(index as nat) + ": "@, words.from@, words.to@);
        },
        Change::Stroke { from, to } => {
            lemma_told("stroke: "@, words.from@, words.to@);
        },
        Change::StrokeWidth { was, becomes } => {
            lemma_told("stroke-width: "@, shown(was), shown(becomes));
        },
        Change::FontFamily => {
            if family is Some {
                lemma_told("font-family: "@, (family->0).0@, (family->0).1@);
            }
        },
        Change::Opacity { was, becomes } => {
            lemma_told("opacity: "@, fixed(was, 2), fixed(becomes, 2));
        },
    }
}

/// The text ends with the old value, an arrow and the new one.
pub open spec fn is_told(t: Seq<char>, old: Seq<char>, new: Seq<char>) -> bool {
    exists|before: Seq<char>| t == #[trigger] (before + (old + " → "@ + new))
}

proof fn lemma_told(before: Seq<char>, old: Seq<char>, new: Seq<char>)
    ensures
        is_told(before + arrow_between(old, new), old, new),
{
    assert(before + arrow_between(old, new) == before + (old + " → "@ + new));
}

} // verus!
