//! Editing paths: effects on their points, their anchors, and cutting and joining
//! them.
use crate::arrange::{given_or_default, or_default};
use crate::bezier::{
    apply_pucker_bloat, apply_round_corners, apply_zig_zag, displaced, path_with_points,
    rounded_path, PathEl, Point,
};
use crate::copies::HALF;
use crate::double::Double;
use crate::float::{
    at_most, clamped, f_add, f_at_most, f_clamp, f_max, f_mul, from_count, maximum, plus, times,
    whole,
};
use crate::painting::{note_skipped, skipped_note};
use crate::parametric::DEGREE;
use crate::scene::{
    count_text, counted, entries_for, find_named, find_node, found_positions, has_node,
    named_positions, one_entry, position_of, positions_found, Color, Node, NodeKind,
};
use crate::steps::{lemma_nothing_times, lemma_plus_nothing};
use crate::text::{
    chars_of, decimal_text, holds_text, join, joined, number_text, push_all, push_str, same_text,
    text_of, texts,
};
use crate::typography::{quoted_name, quoted_text};
use vstd::prelude::*;

verus! {

/// Why no path is edited.
pub open spec fn effect_error(nodes: Seq<Node>, names: Seq<Seq<char>>) -> Option<Seq<char>> {
    if names.len() == 0 {
        Some("node_ids must not be empty"@)
    } else if named_positions(nodes, names, true).len() == 0 {
        Some("No path nodes found in node_ids"@)
    } else {
        None
    }
}

/// The paths that are edited, and how many names stand for none.
#[derive(Debug)]
pub struct PathTargets {
    pub positions: Vec<usize>,
    pub skipped: usize,
    /// How many entries this adds to the history.
    pub entries: usize,
}

pub open spec fn are_targets(nodes: Seq<Node>, names: Seq<Seq<char>>, p: PathTargets) -> bool {
    &&& p.positions@ == named_positions(nodes, names, true)
    &&& p.skipped == names.len() - p.positions@.len()
    &&& p.entries == p.positions@.len()
}

fn find_targets(nodes: &Vec<Node>, names: &Vec<String>) -> (r: Result<PathTargets, String>)
    ensures
        match r {
            Err(e) => effect_error(nodes@, texts(names@)) == Some(e@),
            Ok(p) => {
                &&& effect_error(nodes@, texts(names@)) is None
                &&& are_targets(nodes@, texts(names@), p)
                &&& forall|i: int|
                    0 <= i < p.positions.len() ==> (#[trigger] p.positions@[i]) < nodes.len()
            },
        },
{
    assert(texts(names@).len() == names@.len());
    if names.len() == 0 {
        return Err("node_ids must not be empty".to_owned());
    }
    let positions = find_named(nodes, names, true);
    if positions.len() == 0 {
        return Err("No path nodes found in node_ids".to_owned());
    }
    Ok(
        PathTargets {
            skipped: names.len() - positions.len(),
            entries: positions.len(),
            positions,
        },
    )
}

/// A path and its new elements.
#[derive(Debug)]
pub struct PathEdit {
    pub position: usize,
    pub path: Vec<PathEl>,
}

/// The edited paths, and how many names stand for none.
#[derive(Debug)]
pub struct EditPlan {
    pub edits: Vec<PathEdit>,
    pub skipped: usize,
    /// How many entries this adds to the history.
    pub entries: usize,
}

/// The paths that are named are the ones that are edited.
pub open spec fn edits_named(nodes: Seq<Node>, names: Seq<Seq<char>>, p: EditPlan) -> bool {
    let found = named_positions(nodes, names, true);
    &&& p.edits@.len() == found.len()
    &&& forall|i: int| 0 <= i < found.len() ==> (#[trigger] p.edits@[i]).position == found[i]
    &&& p.skipped == names.len() - found.len()
    &&& p.entries == found.len()
}

/// The number of ridges: 4 where none is given, at least 1.
pub open spec fn ridges_of(ridges: Option<usize>) -> usize {
    match ridges {
        Some(n) => if n >= 1 {
            n
        } else {
            1
        },
        None => 4,
    }
}

/// Draws the paths that are named in zig-zags. `paths` holds the elements of each
/// node's path.
pub fn zig_zag_path(
    nodes: &Vec<Node>,
    paths: &Vec<Vec<PathEl>>,
    names: &Vec<String>,
    size: Option<Double>,
    ridges: Option<usize>,
    smooth: bool,
) -> (r: Result<EditPlan, String>)
    requires
        paths.len() == nodes.len(),
        ridges_of(ridges) * 2 < usize::MAX,
    ensures
        match r {
            Err(e) => effect_error(nodes@, texts(names@)) == Some(e@),
            Ok(p) => {
                &&& effect_error(nodes@, texts(names@)) is None
                &&& edits_named(nodes@, texts(names@), p)
                &&& forall|i: int|
                    0 <= i < p.edits@.len() ==> (#[trigger] p.edits@[i]).path@
                        == crate::bezier::zig_zag_path(
                        paths@[p.edits@[i].position as int]@,
                        or_default(size, whole(10)),
                        ridges_of(ridges),
                        smooth,
                    ).out
            },
        },
{
    let targets = match find_targets(nodes, names) {
        Err(e) => {
            return Err(e);
        },
        Ok(t) => t,
    };
    let s = given_or_default(size, from_count(10));
    let n: usize = match ridges {
        Some(n) => if n >= 1 {
            n
        } else {
            1
        },
        None => 4,
    };
    let found = targets.positions;
    let mut edits: Vec<PathEdit> = Vec::new();
    let mut i: usize = 0;
    while i < found.len()
        invariant
            i <= found.len(),
            edits.len() == i,
            paths.len() == nodes.len(),
            n * 2 < usize::MAX,
            forall|i: int| 0 <= i < found.len() ==> (#[trigger] found@[i]) < nodes.len(),
            forall|j: int|
                0 <= j < i ==> (#[trigger] edits@[j]).position == found@[j] && edits@[j].path@
                    == crate::bezier::zig_zag_path(
                    paths@[edits@[j].position as int]@,
                    s,
                    n,
                    smooth,
                ).out,
        decreases found.len() - i,
    {
        let k: usize = found[i];
        edits.push(PathEdit { position: k, path: apply_zig_zag(&paths[k], s, n, smooth) });
        i += 1;
    }
    Ok(EditPlan { edits, skipped: targets.skipped, entries: targets.entries })
}

/// The centre of an effect: the one that is given, or that of the path.
pub open spec fn effect_center(x: Option<Double>, y: Option<Double>, own: Point) -> Point {
    if x is Some && y is Some {
        Point { x: x->0, y: y->0 }
    } else {
        own
    }
}

fn choose_center(x: Option<Double>, y: Option<Double>, own: Point) -> (r: Point)
    ensures
        r == effect_center(x, y, own),
{
    if let Some(x) = x {
        if let Some(y) = y {
            return Point { x, y };
        }
    }
    own
}

/// Pulls the points of the paths that are named towards a centre, or pushes them
/// away from it. `centers` holds the middle of each node's path.
pub fn pucker_bloat(
    nodes: &Vec<Node>,
    paths: &Vec<Vec<PathEl>>,
    centers: &Vec<Point>,
    names: &Vec<String>,
    strength: Option<Double>,
    center_x: Option<Double>,
    center_y: Option<Double>,
) -> (r: Result<EditPlan, String>)
    requires
        paths.len() == nodes.len(),
        centers.len() == nodes.len(),
    ensures
        match r {
            Err(e) => effect_error(nodes@, texts(names@)) == Some(e@),
            Ok(p) => {
                &&& effect_error(nodes@, texts(names@)) is None
                &&& edits_named(nodes@, texts(names@), p)
                &&& forall|i: int|
                    0 <= i < p.edits@.len() ==> is_displaced(
                        paths@,
                        centers@,
                        or_default(strength, Double { bits: HALF }),
                        center_x,
                        center_y,
                        #[trigger] p.edits@[i],
                    )
            },
        },
{
    let targets = match find_targets(nodes, names) {
        Err(e) => {
            return Err(e);
        },
        Ok(t) => t,
    };
    let s = given_or_default(strength, Double { bits: HALF });
    let found = targets.positions;
    let mut edits: Vec<PathEdit> = Vec::new();
    let mut i: usize = 0;
    while i < found.len()
        invariant
            i <= found.len(),
            edits.len() == i,
            paths.len() == nodes.len(),
            centers.len() == nodes.len(),
            forall|i: int| 0 <= i < found.len() ==> (#[trigger] found@[i]) < nodes.len(),
            forall|j: int|
                0 <= j < i ==> (#[trigger] edits@[j]).position == found@[j] && is_displaced(
                    paths@,
                    centers@,
                    s,
                    center_x,
                    center_y,
                    edits@[j],
                ),
        decreases found.len() - i,
    {
        let k: usize = found[i];
        let c = choose_center(center_x, center_y, centers[k]);
        edits.push(PathEdit { position: k, path: apply_pucker_bloat(&paths[k], s, c) });
        i += 1;
    }
    Ok(EditPlan { edits, skipped: targets.skipped, entries: targets.entries })
}

/// A path whose points are displaced from a centre.
pub open spec fn is_displaced(
    paths: Seq<Vec<PathEl>>,
    centers: Seq<Point>,
    strength: Double,
    x: Option<Double>,
    y: Option<Double>,
    e: PathEdit,
) -> bool {
    let c = effect_center(x, y, centers[e.position as int]);
    e.path@ == path_with_points(
        paths[e.position as int]@,
        |p: Point| displaced(p, strength, c),
    )
}

/// Whether a strength makes a path swell or shrink.
pub fn bloats(strength: Option<Double>) -> (r: bool)
    ensures
        r == f_at_most(Double { bits: 0 }, or_default(strength, Double { bits: HALF })),
{
    at_most(Double { bits: 0 }, given_or_default(strength, Double { bits: HALF }))
}

/// Rounds the corners of the paths that are named.
pub fn round_corners(
    nodes: &Vec<Node>,
    paths: &Vec<Vec<PathEl>>,
    names: &Vec<String>,
    radius: Option<Double>,
) -> (r: Result<EditPlan, String>)
    requires
        paths.len() == nodes.len(),
    ensures
        match r {
            Err(e) => effect_error(nodes@, texts(names@)) == Some(e@),
            Ok(p) => {
                &&& effect_error(nodes@, texts(names@)) is None
                &&& edits_named(nodes@, texts(names@), p)
                &&& forall|i: int|
                    0 <= i < p.edits@.len() ==> (#[trigger] p.edits@[i]).path@ == rounded_path(
                        paths@[p.edits@[i].position as int]@,
                        f_max(or_default(radius, whole(10)), Double { bits: 0 }),
                    )
            },
        },
{
    let targets = match find_targets(nodes, names) {
        Err(e) => {
            return Err(e);
        },
        Ok(t) => t,
    };
    let r = maximum(given_or_default(radius, from_count(10)), Double { bits: 0 });
    let found = targets.positions;
    let mut edits: Vec<PathEdit> = Vec::new();
    let mut i: usize = 0;
    while i < found.len()
        invariant
            i <= found.len(),
            edits.len() == i,
            paths.len() == nodes.len(),
            forall|i: int| 0 <= i < found.len() ==> (#[trigger] found@[i]) < nodes.len(),
            forall|j: int|
                0 <= j < i ==> (#[trigger] edits@[j]).position == found@[j] && edits@[j].path@
                    == rounded_path(paths@[edits@[j].position as int]@, r),
        decreases found.len() - i,
    {
        let k: usize = found[i];
        edits.push(PathEdit { position: k, path: apply_round_corners(&paths[k], r) });
        i += 1;
    }
    Ok(EditPlan { edits, skipped: targets.skipped, entries: targets.entries })
}

/// The paths that are roughened, each with the seed of its random numbers, how far
/// their points are displaced, and how often they are subdivided before.
#[derive(Debug)]
pub struct RoughenPlan {
    pub targets: PathTargets,
    pub seeds: Vec<u64>,
    pub size: Double,
    pub detail: usize,
}

/// The paths that are roughened. The seed grows by one from path to path; it is 42
/// where none is given. The size is 5 by default, and nothing is subdivided.
pub fn roughen_path(
    nodes: &Vec<Node>,
    names: &Vec<String>,
    size: Option<Double>,
    detail: Option<usize>,
    seed: Option<u64>,
) -> (r: Result<RoughenPlan, String>)
    requires
        seed matches Some(s) ==> s + names@.len() <= u64::MAX,
        42 + names@.len() <= u64::MAX,
    ensures
        match r {
            Err(e) => effect_error(nodes@, texts(names@)) == Some(e@),
            Ok(p) => {
                let from = match seed {
                    Some(s) => s,
                    None => 42,
                };
                &&& effect_error(nodes@, texts(names@)) is None
                &&& are_targets(nodes@, texts(names@), p.targets)
                &&& p.seeds@ == Seq::new(
                    p.targets.positions@.len(),
                    |i: int| (from + i) as u64,
                )
                &&& p.size == or_default(size, whole(5))
                &&& p.detail == match detail {
                    Some(n) => n,
                    None => 0,
                }
            },
        },
{
    let targets = match find_targets(nodes, names) {
        Err(e) => {
            return Err(e);
        },
        Ok(t) => t,
    };
    let from: u64 = match seed {
        Some(s) => s,
        None => 42,
    };
    let n: usize = targets.positions.len();
    assert(n <= names@.len());
    let ghost goal = Seq::new(n as nat, |i: int| (from + i) as u64);
    let mut seeds: Vec<u64> = Vec::new();
    let mut i: usize = 0;
    while i < n
        invariant
            i <= n,
            from + n <= u64::MAX,
            goal == Seq::new(n as nat, |i: int| (from + i) as u64),
            seeds@ == goal.take(i as int),
        decreases n - i,
    {
        seeds.push(from + i as u64);
        i += 1;
        assert(seeds@ =~= goal.take(i as int));
    }
    assert(seeds@ =~= goal);
    Ok(
        RoughenPlan {
            targets,
            seeds,
            size: given_or_default(size, from_count(5)),
            detail: match detail {
                Some(n) => n,
                None => 0,
            },
        },
    )
}

/// The paths that are twirled, and the angle in radians.
#[derive(Debug)]
pub struct TwirlPlan {
    pub targets: PathTargets,
    pub angle: Double,
}

/// The paths that are twirled, by 90 degrees where no angle is given.
pub fn twirl_path(nodes: &Vec<Node>, names: &Vec<String>, degrees: Option<Double>) -> (r: Result<
    TwirlPlan,
    String,
>)
    ensures
        match r {
            Err(e) => effect_error(nodes@, texts(names@)) == Some(e@),
            Ok(p) => {
                &&& effect_error(nodes@, texts(names@)) is None
                &&& are_targets(nodes@, texts(names@), p.targets)
                &&& p.angle == f_mul(or_default(degrees, whole(90)), Double { bits: DEGREE })
            },
        },
{
    let targets = match find_targets(nodes, names) {
        Err(e) => {
            return Err(e);
        },
        Ok(t) => t,
    };
    Ok(
        TwirlPlan {
            targets,
            angle: times(given_or_default(degrees, from_count(90)), Double { bits: DEGREE }),
        },
    )
}

/// The paths that get scallops or crystals, with the size and the number of them.
#[derive(Debug)]
pub struct NotchPlan {
    pub targets: PathTargets,
    pub size: Double,
    pub count: usize,
}

pub open spec fn is_notch_plan(
    nodes: Seq<Node>,
    names: Seq<Seq<char>>,
    size: Option<Double>,
    count: Option<usize>,
    default: int,
    p: NotchPlan,
) -> bool {
    &&& are_targets(nodes, names, p.targets)
    &&& p.size == or_default(size, whole(10))
    &&& p.count == match count {
        Some(n) => if n >= 1 {
            n as int
        } else {
            1
        },
        None => default,
    }
}

fn plan_notches(
    nodes: &Vec<Node>,
    names: &Vec<String>,
    size: Option<Double>,
    count: Option<usize>,
    default: usize,
) -> (r: Result<NotchPlan, String>)
    ensures
        match r {
            Err(e) => effect_error(nodes@, texts(names@)) == Some(e@),
            Ok(p) => effect_error(nodes@, texts(names@)) is None && is_notch_plan(
                nodes@,
                texts(names@),
                size,
                count,
                default as int,
                p,
            ),
        },
{
    let targets = match find_targets(nodes, names) {
        Err(e) => {
            return Err(e);
        },
        Ok(t) => t,
    };
    let count: usize = match count {
        Some(n) => if n >= 1 {
            n
        } else {
            1
        },
        None => default,
    };
    Ok(NotchPlan { targets, size: given_or_default(size, from_count(10)), count })
}

/// The paths that get scallops: one for every segment by default.
pub fn scallop_path(
    nodes: &Vec<Node>,
    names: &Vec<String>,
    depth: Option<Double>,
    count: Option<usize>,
) -> (r: Result<NotchPlan, String>)
    ensures
        match r {
            Err(e) => effect_error(nodes@, texts(names@)) == Some(e@),
            Ok(p) => effect_error(nodes@, texts(names@)) is None && is_notch_plan(
                nodes@,
                texts(names@),
                depth,
                count,
                1,
                p,
            ),
        },
{
    plan_notches(nodes, names, depth, count, 1)
}

/// The paths that get crystals: three for every segment by default.
pub fn crystallize_path(
    nodes: &Vec<Node>,
    names: &Vec<String>,
    size: Option<Double>,
    count: Option<usize>,
) -> (r: Result<NotchPlan, String>)
    ensures
        match r {
            Err(e) => effect_error(nodes@, texts(names@)) == Some(e@),
            Ok(p) => effect_error(nodes@, texts(names@)) is None && is_notch_plan(
                nodes@,
                texts(names@),
                size,
                count,
                3,
                p,
            ),
        },
{
    plan_notches(nodes, names, size, count, 3)
}

/// The kinds of warps.
pub open spec fn warp_names() -> Seq<Seq<char>> {
    seq![
        "arc"@,
        "arc_lower"@,
        "arc_upper"@,
        "arch"@,
        "bulge"@,
        "wave"@,
        "flag"@,
        "squeeze"@,
        "inflate"@,
        "fisheye"@,
        "shell_lower"@,
        "shell_upper"@,
        "fish"@,
        "rise"@,
        "twist"@,
    ]
}

/// Why nothing is warped.
pub open spec fn warp_error(nodes: Seq<Node>, names: Seq<Seq<char>>, kind: Seq<char>) -> Option<
    Seq<char>,
> {
    if names.len() == 0 {
        Some("node_ids must not be empty"@)
    } else if !warp_names().contains(kind) {
        Some(
            quoted_name(
                "Unknown warp_type:"@,
                kind,
                ". Use one of: "@ + join(warp_names(), ", "@),
            ),
        )
    } else {
        effect_error(nodes, names)
    }
}

fn warp_words() -> (r: Vec<String>)
    ensures
        texts(r@) == warp_names(),
{
    let mut out: Vec<String> = Vec::new();
    out.push("arc".to_owned());
    out.push("arc_lower".to_owned());
    out.push("arc_upper".to_owned());
    out.push("arch".to_owned());
    out.push("bulge".to_owned());
    out.push("wave".to_owned());
    out.push("flag".to_owned());
    out.push("squeeze".to_owned());
    out.push("inflate".to_owned());
    out.push("fisheye".to_owned());
    out.push("shell_lower".to_owned());
    out.push("shell_upper".to_owned());
    out.push("fish".to_owned());
    out.push("rise".to_owned());
    out.push("twist".to_owned());
    assert(texts(out@) =~= warp_names());
    out
}

/// Texts joined by a separator.
pub fn join_texts(v: &Vec<String>, sep: &str) -> (r: String)
    ensures
        r@ == join(texts(v@), sep@),
{
    let mut words: Vec<Vec<char>> = Vec::new();
    let mut i: usize = 0;
    while i < v.len()
        invariant
            i <= v.len(),
            words.len() == i,
            forall|j: int| 0 <= j < i ==> (#[trigger] words@[j])@ == v@[j]@,
        decreases v.len() - i,
    {
        words.push(chars_of(v[i].as_str()));
        i += 1;
    }
    assert(words@.map_values(|w: Vec<char>| w@) =~= texts(v@));
    text_of(&crate::text::join_words(&words, sep))
}

/// The paths that are warped, and how far they bend and are distorted.
#[derive(Debug)]
pub struct WarpPlan {
    pub targets: PathTargets,
    pub bend: Double,
    pub distort_h: Double,
    pub distort_v: Double,
}

/// The paths that are warped. They bend by a half and are not distorted by default.
pub fn warp_envelope(
    nodes: &Vec<Node>,
    names: &Vec<String>,
    kind: &str,
    bend: Option<Double>,
    distort_h: Option<Double>,
    distort_v: Option<Double>,
) -> (r: Result<WarpPlan, String>)
    ensures
        match r {
            Err(e) => warp_error(nodes@, texts(names@), kind@) == Some(e@),
            Ok(p) => {
                &&& warp_error(nodes@, texts(names@), kind@) is None
                &&& are_targets(nodes@, texts(names@), p.targets)
                &&& p.bend == or_default(bend, Double { bits: HALF })
                &&& p.distort_h == or_default(distort_h, Double { bits: 0 })
                &&& p.distort_v == or_default(distort_v, Double { bits: 0 })
            },
        },
{
    assert(texts(names@).len() == names@.len());
    if names.len() == 0 {
        return Err("node_ids must not be empty".to_owned());
    }
    let known = warp_words();
    if !holds_text(&known, kind) {
        let list = join_texts(&known, ", ");
        let tail = joined(". Use one of: ", list.as_str());
        return Err(quoted_text("Unknown warp_type:", kind, tail.as_str()));
    }
    match find_targets(nodes, names) {
        Err(e) => Err(e),
        Ok(targets) => Ok(
            WarpPlan {
                targets,
                bend: given_or_default(bend, Double { bits: HALF }),
                distort_h: given_or_default(distort_h, Double { bits: 0 }),
                distort_v: given_or_default(distort_v, Double { bits: 0 }),
            },
        ),
    }
}

/// 2.1 as a number.
pub const SECOND_OCTAVE: u64 = 0x4000_cccc_cccc_cccd;

/// 1.3 as a number.
pub const SEED_X: u64 = 0x3ff4_cccc_cccc_cccd;

/// 1.7 as a number.
pub const SEED_Y: u64 = 0x3ffb_3333_3333_3333;

/// A quarter turn in radians.
pub const QUARTER_TURN: u64 = 0x3ff9_21fb_5444_2d18;

/// 0.05 as a number.
pub const P05: u64 = 0x3fa9_9999_9999_999a;

#[derive(Debug)]
pub struct NoiseArgs {
    pub amplitude: Option<Double>,
    pub frequency: Option<Double>,
    pub seed: Option<Double>,
    pub axis: Option<String>,
}

/// Whether points move along an axis.
pub open spec fn deforms(axis: Option<String>, word: Seq<char>) -> bool {
    match axis {
        Some(a) => a@ == "both"@ || a@ == word,
        None => true,
    }
}

/// The four angles of a point's noise: two for each axis, in radians.
pub open spec fn noise_angles_of(args: NoiseArgs, p: Point) -> (Double, Double, Double, Double) {
    let q = or_default(args.frequency, Double { bits: P05 });
    let s = or_default(args.seed, Double { bits: 0 });
    let second = (Double { bits: SECOND_OCTAVE });
    (
        f_add(f_mul(p.y, q), s),
        f_add(f_mul(f_mul(p.y, q), second), f_mul(s, Double { bits: SEED_X })),
        f_add(f_add(f_mul(p.x, q), s), Double { bits: QUARTER_TURN }),
        f_add(f_mul(f_mul(p.x, q), second), f_mul(s, Double { bits: SEED_Y })),
    )
}

/// The angles of a point's noise.
pub fn noise_angles(args: &NoiseArgs, p: Point) -> (r: (Double, Double, Double, Double))
    ensures
        r == noise_angles_of(*args, p),
{
    let q = given_or_default(args.frequency, Double { bits: P05 });
    let s = given_or_default(args.seed, Double { bits: 0 });
    let second = Double { bits: SECOND_OCTAVE };
    let y = times(p.y, q);
    let x = times(p.x, q);
    (
        plus(y, s),
        plus(times(y, second), times(s, Double { bits: SEED_X })),
        plus(plus(x, s), Double { bits: QUARTER_TURN }),
        plus(times(x, second), times(s, Double { bits: SEED_Y })),
    )
}

/// How far two sines of noise move a point.
pub open spec fn noise_shift(amplitude: Double, first: Double, second: Double) -> Double {
    f_add(f_mul(amplitude, first), f_mul(f_mul(amplitude, Double { bits: HALF }), second))
}

/// A point with its noise, from the sines of its angles.
pub open spec fn noisy(args: NoiseArgs, p: Point, sines: (Double, Double, Double, Double)) -> Point {
    let a = or_default(args.amplitude, whole(8));
    let zero = (Double { bits: 0 });
    Point {
        x: f_add(
            p.x,
            if deforms(args.axis, "x"@) {
                noise_shift(a, sines.0, sines.1)
            } else {
                zero
            },
        ),
        y: f_add(
            p.y,
            if deforms(args.axis, "y"@) {
                noise_shift(a, sines.2, sines.3)
            } else {
                zero
            },
        ),
    }
}

fn shift_by(amplitude: Double, first: Double, second: Double) -> (r: Double)
    ensures
        r == noise_shift(amplitude, first, second),
{
    plus(times(amplitude, first), times(times(amplitude, Double { bits: HALF }), second))
}

fn axis_deforms(axis: &Option<String>, word: &str) -> (r: bool)
    ensures
        r == deforms(*axis, word@),
{
    match axis {
        Some(a) => same_text(a.as_str(), "both") || same_text(a.as_str(), word),
        None => true,
    }
}

/// A point with its noise.
pub fn noise_point(args: &NoiseArgs, p: Point, sines: (Double, Double, Double, Double)) -> (r: Point)
    ensures
        r == noisy(*args, p, sines),
{
    let a = given_or_default(args.amplitude, from_count(8));
    let zero = Double { bits: 0 };
    let dx = if axis_deforms(&args.axis, "x") {
        shift_by(a, sines.0, sines.1)
    } else {
        zero
    };
    let dy = if axis_deforms(&args.axis, "y") {
        shift_by(a, sines.2, sines.3)
    } else {
        zero
    };
    Point { x: plus(p.x, dx), y: plus(p.y, dy) }
}

/// The paths that are deformed by noise.
pub fn noise_deform(nodes: &Vec<Node>, names: &Vec<String>) -> (r: Result<PathTargets, String>)
    ensures
        match r {
            Err(e) => effect_error(nodes@, texts(names@)) == Some(e@),
            Ok(p) => effect_error(nodes@, texts(names@)) is None && are_targets(
                nodes@,
                texts(names@),
                p,
            ),
        },
{
    find_targets(nodes, names)
}

/// Why no path with these ids is edited.
pub open spec fn id_error(nodes: Seq<Node>, ids: Seq<u128>) -> Option<Seq<char>> {
    if ids.len() == 0 {
        Some("node_ids must not be empty"@)
    } else if found_positions(nodes, ids, true).len() == 0 {
        Some("No path nodes found in node_ids"@)
    } else {
        None
    }
}

/// The paths that are edited, how many ids stand for none, and what is said.
#[derive(Debug)]
pub struct IdPlan {
    pub positions: Vec<usize>,
    pub skipped: usize,
    /// How many entries this adds to the history.
    pub entries: usize,
    pub message: String,
}

pub open spec fn is_id_plan(nodes: Seq<Node>, ids: Seq<u128>, p: IdPlan) -> bool {
    &&& p.positions@ == found_positions(nodes, ids, true)
    &&& p.skipped == ids.len() - p.positions@.len()
}

fn find_ids(nodes: &Vec<Node>, ids: &Vec<u128>) -> (r: Result<PathTargets, String>)
    ensures
        match r {
            Err(e) => id_error(nodes@, ids@) == Some(e@),
            Ok(p) => {
                &&& id_error(nodes@, ids@) is None
                &&& p.positions@ == found_positions(nodes@, ids@, true)
                &&& p.skipped == ids@.len() - p.positions@.len()
                &&& p.entries == p.positions@.len()
            },
        },
{
    if ids.len() == 0 {
        return Err("node_ids must not be empty".to_owned());
    }
    let positions = positions_found(nodes, ids, true);
    if positions.len() == 0 {
        return Err("No path nodes found in node_ids".to_owned());
    }
    Ok(
        PathTargets { skipped: ids.len() - positions.len(), entries: positions.len(), positions },
    )
}

/// The number of passes: one where none is given, from 1 to 8.
pub open spec fn passes_of(passes: Option<usize>) -> nat {
    match passes {
        Some(n) => if n < 1 {
            1
        } else if n > 8 {
            8
        } else {
            n as nat
        },
        None => 1,
    }
}

/// Adds an anchor in the middle of every segment, so many times.
pub fn add_anchor_points(nodes: &Vec<Node>, ids: &Vec<u128>, passes: Option<usize>) -> (r: Result<
    (IdPlan, usize),
    String,
>)
    ensures
        match r {
            Err(e) => id_error(nodes@, ids@) == Some(e@),
            Ok((p, n)) => {
                &&& id_error(nodes@, ids@) is None
                &&& is_id_plan(nodes@, ids@, p)
                &&& p.entries == p.positions@.len()
                &&& n == passes_of(passes)
                &&& p.message@ == "Added anchor points to "@ + decimal_text(p.positions@.len())
                    + " node(s) ("@ + decimal_text(n as nat) + " pass"@ + (if n == 1 {
                    ""@
                } else {
                    "es"@
                }) + ")"@ + skipped_note(p.skipped as nat, " non-path node(s) skipped"@)
            },
        },
{
    let t = match find_ids(nodes, ids) {
        Err(e) => {
            return Err(e);
        },
        Ok(t) => t,
    };
    let n: usize = match passes {
        Some(n) => if n < 1 {
            1
        } else if n > 8 {
            8
        } else {
            n
        },
        None => 1,
    };
    let mut v = chars_of("Added anchor points to ");
    push_all(&mut v, &number_text(t.positions.len() as u64));
    push_str(&mut v, " node(s) (");
    push_all(&mut v, &number_text(n as u64));
    push_str(&mut v, " pass");
    push_str(
        &mut v,
        if n == 1 {
            ""
        } else {
            "es"
        },
    );
    push_str(&mut v, ")");
    push_str(&mut v, note_skipped(t.skipped, " non-path node(s) skipped").as_str());
    let plan = IdPlan {
        positions: t.positions,
        skipped: t.skipped,
        entries: t.entries,
        message: text_of(&v),
    };
    Ok((plan, n))
}

fn say_edited(before: &str, t: PathTargets) -> (r: IdPlan)
    ensures
        r.positions == t.positions,
        r.skipped == t.skipped,
        r.entries == t.entries,
        r.message@ == counted(before@, t.positions@.len(), " node(s)"@) + skipped_note(
            t.skipped as nat,
            " non-path node(s) skipped"@,
        ),
{
    let mut v = chars_of(count_text(before, t.positions.len(), " node(s)").as_str());
    push_str(&mut v, note_skipped(t.skipped, " non-path node(s) skipped").as_str());
    IdPlan {
        positions: t.positions,
        skipped: t.skipped,
        entries: t.entries,
        message: text_of(&v),
    }
}

/// Reverses the direction of paths.
pub fn reverse_path_direction(nodes: &Vec<Node>, ids: &Vec<u128>) -> (r: Result<IdPlan, String>)
    ensures
        match r {
            Err(e) => id_error(nodes@, ids@) == Some(e@),
            Ok(p) => {
                &&& id_error(nodes@, ids@) is None
                &&& is_id_plan(nodes@, ids@, p)
                &&& p.entries == p.positions@.len()
                &&& p.message@ == counted(
                    "Reversed path direction on "@,
                    p.positions@.len(),
                    " node(s)"@,
                ) + skipped_note(p.skipped as nat, " non-path node(s) skipped"@)
            },
        },
{
    match find_ids(nodes, ids) {
        Err(e) => Err(e),
        Ok(t) => Ok(say_edited("Reversed path direction on ", t)),
    }
}

/// The axes along which anchors are averaged.
#[derive(Debug)]
pub struct AveragePlan {
    pub plan: IdPlan,
    pub x: bool,
    pub y: bool,
}

/// Averages the anchors of paths: along one axis, or along both where the axis is not
/// `horizontal` or `vertical`.
pub fn average_anchor_points(nodes: &Vec<Node>, ids: &Vec<u128>, axis: &Option<String>) -> (r:
    Result<AveragePlan, String>)
    ensures
        match r {
            Err(e) => id_error(nodes@, ids@) == Some(e@),
            Ok(p) => {
                &&& id_error(nodes@, ids@) is None
                &&& is_id_plan(nodes@, ids@, p.plan)
                &&& p.plan.entries == p.plan.positions@.len()
                &&& p.x == !(axis matches Some(a) && a@ == "vertical"@ && a@ != "horizontal"@)
                &&& p.y == !(axis matches Some(a) && a@ == "horizontal"@)
                &&& p.plan.message@ == counted(
                    "Averaged anchor points on "@,
                    p.plan.positions@.len(),
                    " node(s)"@,
                ) + skipped_note(p.plan.skipped as nat, " non-path node(s) skipped"@)
            },
        },
{
    let across = match axis {
        Some(a) => same_text(a.as_str(), "horizontal"),
        None => false,
    };
    let down = match axis {
        Some(a) => !across && same_text(a.as_str(), "vertical"),
        None => false,
    };
    match find_ids(nodes, ids) {
        Err(e) => Err(e),
        Ok(t) => Ok(
            AveragePlan { plan: say_edited("Averaged anchor points on ", t), x: !down, y: !across },
        ),
    }
}

#[derive(Debug, Clone, Copy, PartialEq, Eq, Structural)]
pub enum ConvertAnchorMode {
    Smooth,
    Corner,
}

/// Makes the anchors of paths smooth or corners.
pub fn convert_anchor_points(nodes: &Vec<Node>, ids: &Vec<u128>, mode: ConvertAnchorMode) -> (r:
    Result<IdPlan, String>)
    ensures
        match r {
            Err(e) => id_error(nodes@, ids@) == Some(e@),
            Ok(p) => {
                &&& id_error(nodes@, ids@) is None
                &&& is_id_plan(nodes@, ids@, p)
                &&& p.entries == 1
                &&& p.message@ == "Converted "@ + decimal_text(p.positions@.len())
                    + " node(s) to "@ + (match mode {
                    ConvertAnchorMode::Smooth => "smooth"@,
                    ConvertAnchorMode::Corner => "corner"@,
                }) + " anchors ("@ + decimal_text(p.skipped as nat) + " skipped)."@
            },
        },
{
    let t = match find_ids(nodes, ids) {
        Err(e) => {
            return Err(e);
        },
        Ok(t) => t,
    };
    let mut v = chars_of("Converted ");
    push_all(&mut v, &number_text(t.positions.len() as u64));
    push_str(&mut v, " node(s) to ");
    push_str(
        &mut v,
        match mode {
            ConvertAnchorMode::Smooth => "smooth",
            ConvertAnchorMode::Corner => "corner",
        },
    );
    push_str(&mut v, " anchors (");
    push_all(&mut v, &number_text(t.skipped as u64));
    push_str(&mut v, " skipped).");
    Ok(IdPlan { positions: t.positions, skipped: t.skipped, entries: 1, message: text_of(&v) })
}

/// The paths that are smoothed, how much of a corner is cut, and how often.
#[derive(Debug)]
pub struct SmoothPlan {
    pub positions: Vec<usize>,
    pub factor: Double,
    pub iterations: usize,
    /// How many entries this adds to the history.
    pub entries: usize,
    /// Why nothing is smoothed.
    pub note: Option<String>,
}

/// Why nothing is smoothed.
pub open spec fn smooth_note(nodes: Seq<Node>, ids: Seq<u128>) -> Option<Seq<char>> {
    if ids.len() == 0 {
        Some("No nodes specified or selected."@)
    } else if found_positions(nodes, ids, true).len() == 0 {
        Some("No path nodes found in the specified IDs."@)
    } else {
        None
    }
}

/// Smooths the paths with the given ids, or the selection: at most a half of every
/// edge is cut, at most eight times.
pub fn smooth_path(
    nodes: &Vec<Node>,
    selection: &Vec<u128>,
    ids: &Vec<u128>,
    factor: Double,
    iterations: usize,
) -> (r: SmoothPlan)
    ensures
        ({
            let used = crate::transform::ids_or_selection(ids@, selection@);
            &&& r.positions@ == found_positions(nodes@, used, true)
            &&& r.factor == f_clamp(factor, Double { bits: 0 }, Double { bits: HALF })
            &&& r.iterations == if iterations <= 8 {
                iterations
            } else {
                8
            }
            &&& r.entries == entries_for(r.positions@.len())
            &&& crate::layouts::note_view(r.note) == smooth_note(nodes@, used)
        }),
{
    let used: &Vec<u128> = if ids.len() == 0 {
        selection
    } else {
        ids
    };
    let positions = positions_found(nodes, used, true);
    let note = if used.len() == 0 {
        Some("No nodes specified or selected.".to_owned())
    } else if positions.len() == 0 {
        Some("No path nodes found in the specified IDs.".to_owned())
    } else {
        None
    };
    SmoothPlan {
        entries: one_entry(positions.len()),
        positions,
        factor: clamped(factor, Double { bits: 0 }, Double { bits: HALF }),
        iterations: if iterations <= 8 {
            iterations
        } else {
            8
        },
        note,
    }
}

/// The paths that a result was found for, by the ids that were asked for. A path
/// without a result is passed over.
pub open spec fn with_results(nodes: Seq<Node>, ids: Seq<u128>, results: Seq<bool>, n: nat) -> Seq<
    usize,
>
    decreases n,
{
    if n == 0 {
        Seq::empty()
    } else {
        let before = with_results(nodes, ids, results, (n - 1) as nat);
        let k = position_of(nodes, ids[n - 1]);
        if has_node(nodes, ids[n - 1]) && nodes[k].kind == NodeKind::Path && results[k] {
            before.push(k as usize)
        } else {
            before
        }
    }
}

fn find_results(nodes: &Vec<Node>, ids: &Vec<u128>, results: &Vec<bool>) -> (r: Vec<usize>)
    requires
        results.len() == nodes.len(),
    ensures
        r@ == with_results(nodes@, ids@, results@, ids@.len()),
        r.len() <= ids.len(),
        forall|i: int| 0 <= i < r.len() ==> (#[trigger] r@[i]) < nodes.len(),
{
    let mut out: Vec<usize> = Vec::new();
    let mut i: usize = 0;
    while i < ids.len()
        invariant
            i <= ids.len(),
            out.len() <= i,
            results.len() == nodes.len(),
            out@ == with_results(nodes@, ids@, results@, i as nat),
            forall|i: int| 0 <= i < out.len() ==> (#[trigger] out@[i]) < nodes.len(),
        decreases ids.len() - i,
    {
        if let Some(k) = find_node(nodes, ids[i]) {
            if nodes[k].kind == NodeKind::Path && results[k] {
                out.push(k);
            }
        }
        i += 1;
    }
    out
}

fn suffixed(nodes: &Vec<Node>, found: &Vec<usize>, suffix: &str) -> (r: Vec<String>)
    requires
        forall|i: int| 0 <= i < found.len() ==> (#[trigger] found@[i]) < nodes.len(),
    ensures
        texts(r@) == suffixed_names(nodes@, found@, suffix@),
{
    let ghost goal = suffixed_names(nodes@, found@, suffix@);
    let mut out: Vec<String> = Vec::new();
    let mut i: usize = 0;
    assert(texts(out@) =~= goal.take(0));
    while i < found.len()
        invariant
            i <= found.len(),
            forall|i: int| 0 <= i < found.len() ==> (#[trigger] found@[i]) < nodes.len(),
            goal == suffixed_names(nodes@, found@, suffix@),
            texts(out@) == goal.take(i as int),
        decreases found.len() - i,
    {
        let k: usize = found[i];
        let ghost before = out@;
        out.push(joined(nodes[k].name.as_str(), suffix));
        i += 1;
        assert(texts(out@) =~= texts(before).push(goal[i - 1]));
        assert(goal.take(i as int) =~= goal.take(i - 1).push(goal[i - 1]));
    }
    assert(texts(out@) =~= goal);
    out
}

/// The names of nodes with something behind them.
pub open spec fn suffixed_names(nodes: Seq<Node>, found: Seq<usize>, suffix: Seq<char>) -> Seq<
    Seq<char>,
> {
    Seq::new(found.len(), |i: int| nodes[found[i] as int].name@ + suffix)
}

/// The paths whose strokes are outlined and then switched off, the names of the new
/// paths, their fills, and what is said. The new paths have no stroke.
#[derive(Debug)]
pub struct OutlinePlan {
    pub positions: Vec<usize>,
    pub names: Vec<String>,
    pub fills: Vec<Color>,
    pub skipped: usize,
    /// How many entries this adds to the history.
    pub entries: usize,
    pub message: String,
}

/// The colours of the strokes of nodes.
fn stroke_colors(nodes: &Vec<Node>, positions: &Vec<usize>) -> (r: Vec<Color>)
    requires
        forall|i: int| 0 <= i < positions.len() ==> (#[trigger] positions@[i]) < nodes.len(),
    ensures
        r@ == Seq::new(
            positions@.len(),
            |i: int| nodes@[positions@[i] as int].stroke_color,
        ),
{
    let ghost goal = Seq::new(
        positions@.len(),
        |i: int| nodes@[positions@[i] as int].stroke_color,
    );
    let mut out: Vec<Color> = Vec::new();
    let mut i: usize = 0;
    while i < positions.len()
        invariant
            i <= positions.len(),
            forall|i: int| 0 <= i < positions.len() ==> (#[trigger] positions@[i]) < nodes.len(),
            goal == Seq::new(
                positions@.len(),
                |i: int| nodes@[positions@[i] as int].stroke_color,
            ),
            out@ == goal.take(i as int),
        decreases positions.len() - i,
    {
        out.push(nodes[positions[i]].stroke_color);
        i += 1;
        assert(out@ =~= goal.take(i as int));
    }
    assert(out@ =~= goal);
    out
}

/// Makes outlines of strokes. `outlined` tells of each node whether its stroke has an
/// outline.
pub fn outline_stroke(nodes: &Vec<Node>, ids: &Vec<u128>, outlined: &Vec<bool>) -> (r: Result<
    OutlinePlan,
    String,
>)
    requires
        outlined.len() == nodes.len(),
    ensures
        ({
            let found = with_results(nodes@, ids@, outlined@, ids@.len());
            match r {
                Err(e) => if ids@.len() == 0 {
                    e@ == "node_ids must not be empty"@
                } else {
                    found.len() == 0 && e@
                        == "No eligible path nodes found — each node must be a path with an enabled stroke"@
                },
                Ok(p) => {
                    &&& found.len() > 0
                    &&& p.positions@ == found
                    &&& texts(p.names@) == suffixed_names(nodes@, found, " outline"@)
                    &&& p.fills@ == Seq::new(
                        found.len(),
                        |i: int| nodes@[found[i] as int].stroke_color,
                    )
                    &&& p.skipped == ids@.len() - found.len()
                    &&& p.entries == 1
                    &&& p.message@ == counted(
                        "Outlined stroke on "@,
                        found.len(),
                        " node(s)"@,
                    ) + skipped_note(p.skipped as nat, " node(s) skipped"@)
                },
            }
        }),
{
    if ids.len() == 0 {
        return Err("node_ids must not be empty".to_owned());
    }
    let positions = find_results(nodes, ids, outlined);
    if positions.len() == 0 {
        return Err(
            "No eligible path nodes found — each node must be a path with an enabled stroke".to_owned(),
        );
    }
    let skipped: usize = ids.len() - positions.len();
    let names = suffixed(nodes, &positions, " outline");
    let mut v = chars_of(count_text("Outlined stroke on ", positions.len(), " node(s)").as_str());
    push_str(&mut v, note_skipped(skipped, " node(s) skipped").as_str());
    let fills = stroke_colors(nodes, &positions);
    Ok(OutlinePlan { positions, names, fills, skipped, entries: 1, message: text_of(&v) })
}

/// How the corners of an offset path are joined.
#[derive(Debug, Clone, Copy, PartialEq, Eq, Structural)]
pub enum JoinStyle {
    Miter,
    Round,
    Bevel,
}

/// The join that a word stands for; a miter by default.
pub fn join_style(word: &Option<String>) -> (r: JoinStyle)
    ensures
        r == match *word {
            Some(w) => if w@ == "round"@ {
                JoinStyle::Round
            } else if w@ == "bevel"@ {
                JoinStyle::Bevel
            } else {
                JoinStyle::Miter
            },
            None => JoinStyle::Miter,
        },
{
    match word {
        Some(w) => if same_text(w.as_str(), "round") {
            JoinStyle::Round
        } else if same_text(w.as_str(), "bevel") {
            JoinStyle::Bevel
        } else {
            JoinStyle::Miter
        },
        None => JoinStyle::Miter,
    }
}

/// The paths that are offset, and the names of their copies.
#[derive(Debug)]
pub struct OffsetPlan {
    pub positions: Vec<usize>,
    pub names: Vec<String>,
    pub skipped: usize,
    /// How many entries this adds to the history.
    pub entries: usize,
    /// The offset paths are new ones.
    pub copies: bool,
}

/// Offsets paths, into copies unless that is not wanted. `offset` tells of each node
/// whether its path could be offset.
pub fn offset_path(
    nodes: &Vec<Node>,
    ids: &Vec<u128>,
    offset: &Vec<bool>,
    create_copy: Option<bool>,
) -> (r: Result<OffsetPlan, String>)
    requires
        offset.len() == nodes.len(),
    ensures
        ({
            let found = with_results(nodes@, ids@, offset@, ids@.len());
            match r {
                Err(e) => if ids@.len() == 0 {
                    e@ == "node_ids must not be empty"@
                } else {
                    found.len() == 0 && e@
                        == "No path nodes found or all offsets failed (path may be too small to inset by this distance)"@
                },
                Ok(p) => {
                    &&& found.len() > 0
                    &&& p.positions@ == found
                    &&& texts(p.names@) == suffixed_names(nodes@, found, " offset"@)
                    &&& p.skipped == ids@.len() - found.len()
                    &&& p.entries == 1
                    &&& p.copies == (create_copy != Some(false))
                },
            }
        }),
{
    if ids.len() == 0 {
        return Err("node_ids must not be empty".to_owned());
    }
    let positions = find_results(nodes, ids, offset);
    if positions.len() == 0 {
        return Err(
            "No path nodes found or all offsets failed (path may be too small to inset by this distance)".to_owned(),
        );
    }
    let copies = match create_copy {
        Some(c) => c,
        None => true,
    };
    let names = suffixed(nodes, &positions, " offset");
    Ok(OffsetPlan { skipped: ids.len() - positions.len(), names, positions, entries: 1, copies })
}


/// Noise across depends on where a point is down, and moves it across by the first two sines
/// alone; noise down depends on where it is across, and on the other two.
pub proof fn law_noise_axes_are_apart(
    args: NoiseArgs,
    p: Point,
    q: Point,
    s: (Double, Double, Double, Double),
    t: (Double, Double, Double, Double),
)
    ensures
        p.y == q.y ==> noise_angles_of(args, p).0 == noise_angles_of(args, q).0 && noise_angles_of(
            args,
            p,
        ).1 == noise_angles_of(args, q).1,
        p.x == q.x ==> noise_angles_of(args, p).2 == noise_angles_of(args, q).2 && noise_angles_of(
            args,
            p,
        ).3 == noise_angles_of(args, q).3,
        p.x == q.x && s.0 == t.0 && s.1 == t.1 ==> noisy(args, p, s).x == noisy(args, q, t).x,
        p.y == q.y && s.2 == t.2 && s.3 == t.3 ==> noisy(args, p, s).y == noisy(args, q, t).y,
{
}

/// An axis that is not deformed stays, and without noise a point stays where it is.
pub proof fn law_undeformed_axis_stays(
    args: NoiseArgs,
    p: Point,
    s: (Double, Double, Double, Double),
)
    requires
        p.x.wf(),
        p.y.wf(),
        or_default(args.amplitude, whole(8)).wf(),
        f_mul(or_default(args.amplitude, whole(8)), Double { bits: HALF }).wf(),
    ensures
        args.axis is Some && args.axis->0@ == "x"@ ==> noisy(args, p, s).y.key() == p.y.key(),
        args.axis is Some && args.axis->0@ == "y"@ ==> noisy(args, p, s).x.key() == p.x.key(),
        s.0.key() == 0 && s.1.key() == 0 ==> noisy(args, p, s).x.key() == p.x.key(),
        s.2.key() == 0 && s.3.key() == 0 ==> noisy(args, p, s).y.key() == p.y.key(),
{
    reveal_strlit("x");
    reveal_strlit("y");
    reveal_strlit("both");
    assert("x"@[0] == 'x' && "y"@[0] == 'y');
    assert("both"@.len() == 4);
    let zero = (Double { bits: 0 });
    lemma_plus_nothing(p.x, zero);
    lemma_plus_nothing(p.y, zero);
    let a = or_default(args.amplitude, whole(8));
    if s.0.key() == 0 && s.1.key() == 0 {
        lemma_no_noise(a, s.0, s.1);
        lemma_plus_nothing(p.x, noise_shift(a, s.0, s.1));
    }
    if s.2.key() == 0 && s.3.key() == 0 {
        lemma_no_noise(a, s.2, s.3);
        lemma_plus_nothing(p.y, noise_shift(a, s.2, s.3));
    }
}

proof fn lemma_no_noise(a: Double, s: Double, t: Double)
    requires
        a.wf(),
        f_mul(a, Double { bits: HALF }).wf(),
        s.key() == 0,
        t.key() == 0,
    ensures
        noise_shift(a, s, t).key() == 0,
{
    lemma_nothing_times(s, a);
    let h = f_mul(a, Double { bits: HALF });
    lemma_nothing_times(t, h);
    lemma_plus_nothing(f_mul(a, s), f_mul(h, t));
}

} // verus!
