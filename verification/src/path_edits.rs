//! Editing single paths: deleting anchors, places along a path, joining and cutting.
use crate::bezier::{
    element_end, lemma_share_of_itself, map_point, mapped, Affine, PathEl, Point, EDGE_MARGIN, ONE,
    TINY,
};
use crate::bignum::lemma_power_positive;
use crate::copies::HALF;
use crate::double::Double;
use crate::float::{
    at_most, clamped, f_add, f_at_most, f_clamp, f_less, f_max, f_min, f_mul, f_neg, f_over, f_sub,
    from_count, less, maximum, minimum, minus, negated, one_units, over, plus, times, whole,
};
use crate::scene::{
    around_id, find_node, has_node, id_text, named_id, position_of, push_id, resolve_node_id, Node,
    NodeKind,
};
use crate::steps::{
    lemma_neg, lemma_nothing_times, lemma_one, lemma_plus_nothing, lemma_product_commutes,
    lemma_same_value, lemma_sum_commutes, lemma_sum_keeps_order, lemma_sum_value, lemma_times_one,
    lemma_zero_rounds,
};
use crate::text::{chars_of, decimal_text, joined, number_text, push_all, push_str, text_of};
use crate::typography::{is_target, target};
use vstd::prelude::*;

verus! {

/// Why a name does not stand for a path.
pub open spec fn path_error(nodes: Seq<Node>, name: Seq<char>, repeat_name: bool) -> Option<
    Seq<char>,
> {
    if named_id(nodes, name) is None {
        Some("Node not found: "@ + name)
    } else if !is_target(nodes, name) {
        Some(
            if repeat_name {
                "Node not found: "@ + name
            } else {
                "Node not found"@
            },
        )
    } else if nodes[target(nodes, name)].kind != NodeKind::Path {
        Some("Node is not a path"@)
    } else {
        None
    }
}

fn find_path(nodes: &Vec<Node>, name: &str, repeat_name: bool) -> (r: Result<usize, String>)
    ensures
        match r {
            Err(e) => path_error(nodes@, name@, repeat_name) == Some(e@),
            Ok(k) => path_error(nodes@, name@, repeat_name) is None && k == target(nodes@, name@)
                && k < nodes.len(),
        },
{
    let id: u128 = match resolve_node_id(nodes, name) {
        Some(id) => id,
        None => {
            return Err(joined("Node not found: ", name));
        },
    };
    match find_node(nodes, id) {
        Some(k) => if nodes[k].kind == NodeKind::Path {
            Ok(k)
        } else {
            Err("Node is not a path".to_owned())
        },
        None => if repeat_name {
            Err(joined("Node not found: ", name))
        } else {
            Err("Node not found".to_owned())
        },
    }
}

/// What is left of a path, and whether the next element begins a new part.
#[verifier::ext_equal]
pub struct Trimmed {
    pub out: Seq<PathEl>,
    pub lifted: bool,
}

/// Keeps an element, or drops it. What follows a dropped element begins with a move
/// to its own end.
pub open spec fn trim_step(s: Trimmed, el: PathEl, dropped: bool) -> Trimmed {
    if dropped {
        Trimmed { out: s.out, lifted: true }
    } else if !s.lifted {
        Trimmed { out: s.out.push(el), lifted: false }
    } else {
        match element_end(el) {
            None => s,
            Some(p) => if el is MoveTo {
                Trimmed { out: s.out.push(PathEl::MoveTo(p)), lifted: false }
            } else {
                Trimmed { out: s.out.push(PathEl::MoveTo(p)).push(el), lifted: false }
            },
        }
    }
}

/// The first `n` elements of a path without those whose indices are given.
pub open spec fn trimmed_path(path: Seq<PathEl>, indices: Seq<usize>, n: nat) -> Trimmed
    decreases n,
{
    if n == 0 {
        Trimmed { out: Seq::empty(), lifted: true }
    } else {
        trim_step(
            trimmed_path(path, indices, (n - 1) as nat),
            path[n - 1],
            indices.contains((n - 1) as usize),
        )
    }
}

/// How many of the first `n` indices are among those that are given.
pub open spec fn dropped_count(indices: Seq<usize>, n: nat) -> nat
    decreases n,
{
    if n == 0 {
        0
    } else {
        dropped_count(indices, (n - 1) as nat) + if indices.contains((n - 1) as usize) {
            1nat
        } else {
            0
        }
    }
}

/// The first index that is not one of a path's elements.
pub open spec fn first_beyond(indices: Seq<usize>, count: nat, n: nat) -> Option<usize>
    decreases n,
{
    if n == 0 {
        None
    } else {
        match first_beyond(indices, count, (n - 1) as nat) {
            Some(i) => Some(i),
            None => if indices[n - 1] >= count {
                Some(indices[n - 1])
            } else {
                None
            },
        }
    }
}

proof fn lemma_first_beyond_stays(indices: Seq<usize>, count: nat, m: nat, n: nat)
    requires
        m <= n,
        first_beyond(indices, count, m) is Some,
    ensures
        first_beyond(indices, count, n) == first_beyond(indices, count, m),
    decreases n,
{
    if m < n {
        lemma_first_beyond_stays(indices, count, m, (n - 1) as nat);
    }
}

fn find_beyond(indices: &Vec<usize>, count: usize) -> (r: Option<usize>)
    ensures
        r == first_beyond(indices@, count as nat, indices@.len()),
{
    let mut i: usize = 0;
    while i < indices.len()
        invariant
            i <= indices.len(),
            first_beyond(indices@, count as nat, i as nat) is None,
        decreases indices.len() - i,
    {
        if indices[i] >= count {
            proof {
                lemma_first_beyond_stays(
                    indices@,
                    count as nat,
                    (i + 1) as nat,
                    indices@.len(),
                );
            }
            return Some(indices[i]);
        }
        i += 1;
    }
    None
}

/// Whether a list holds an index.
fn holds_index(indices: &Vec<usize>, k: usize) -> (r: bool)
    ensures
        r == indices@.contains(k),
{
    let mut i: usize = 0;
    while i < indices.len()
        invariant
            i <= indices.len(),
            forall|j: int| 0 <= j < i ==> (#[trigger] indices@[j]) != k,
        decreases indices.len() - i,
    {
        if indices[i] == k {
            assert(indices@[i as int] == k);
            return true;
        }
        i += 1;
    }
    false
}

/// Removes elements of a path. What follows a removed element begins with a move to
/// its own end, and a closing element there goes with it.
pub fn remove_elements(path: &Vec<PathEl>, indices: &Vec<usize>) -> (r: Vec<PathEl>)
    ensures
        r@ == trimmed_path(path@, indices@, path@.len()).out,
{
    let mut out: Vec<PathEl> = Vec::new();
    let mut lifted = true;
    let mut i: usize = 0;
    while i < path.len()
        invariant
            i <= path.len(),
            (Trimmed { out: out@, lifted }) == trimmed_path(path@, indices@, i as nat),
        decreases path.len() - i,
    {
        let el = path[i];
        if holds_index(indices, i) {
            lifted = true;
        } else if !lifted {
            out.push(el);
        } else {
            match el {
                PathEl::MoveTo(p) => {
                    out.push(PathEl::MoveTo(p));
                    lifted = false;
                },
                PathEl::LineTo(p) => {
                    out.push(PathEl::MoveTo(p));
                    out.push(el);
                    lifted = false;
                },
                PathEl::QuadTo(_, p) => {
                    out.push(PathEl::MoveTo(p));
                    out.push(el);
                    lifted = false;
                },
                PathEl::CurveTo(_, _, p) => {
                    out.push(PathEl::MoveTo(p));
                    out.push(el);
                    lifted = false;
                },
                PathEl::ClosePath => {},
            }
        }
        i += 1;
    }
    out
}

/// Counts the elements that are removed, each once.
fn count_dropped(indices: &Vec<usize>, count: usize) -> (r: usize)
    ensures
        r == dropped_count(indices@, count as nat),
{
    let mut n: usize = 0;
    let mut i: usize = 0;
    while i < count
        invariant
            i <= count,
            n <= i,
            n == dropped_count(indices@, i as nat),
        decreases count - i,
    {
        if holds_index(indices, i) {
            n += 1;
        }
        i += 1;
    }
    n
}

/// A path with some of its anchors removed.
#[derive(Debug)]
pub struct DeletePlan {
    pub position: usize,
    pub path: Vec<PathEl>,
    /// How many anchors were removed.
    pub removed: usize,
    pub message: String,
}

/// Why no anchor is removed.
pub open spec fn delete_error(
    nodes: Seq<Node>,
    paths: Seq<Vec<PathEl>>,
    name: Seq<char>,
    indices: Seq<usize>,
) -> Option<Seq<char>> {
    if indices.len() == 0 {
        Some("anchor_indices must not be empty"@)
    } else if path_error(nodes, name, true) is Some {
        path_error(nodes, name, true)
    } else {
        let count = paths[target(nodes, name)]@.len();
        match first_beyond(indices, count, indices.len()) {
            Some(i) => Some(
                "Anchor index "@ + decimal_text(i as nat) + " out of range (path has "@
                    + decimal_text(count) + " elements)"@,
            ),
            None => None,
        }
    }
}

/// Removes anchors from the path that is named. `paths` holds the elements of each
/// node's path.
pub fn delete_anchor_point(
    nodes: &Vec<Node>,
    paths: &Vec<Vec<PathEl>>,
    name: &str,
    indices: &Vec<usize>,
) -> (r: Result<DeletePlan, String>)
    requires
        paths.len() == nodes.len(),
    ensures
        match r {
            Err(e) => delete_error(nodes@, paths@, name@, indices@) == Some(e@),
            Ok(p) => {
                let path = paths@[target(nodes@, name@)]@;
                &&& delete_error(nodes@, paths@, name@, indices@) is None
                &&& p.position == target(nodes@, name@)
                &&& p.path@ == trimmed_path(path, indices@, path.len()).out
                &&& p.removed == dropped_count(indices@, path.len())
                &&& p.message@ == "Deleted "@ + decimal_text(p.removed as nat) + " anchor(s) — "@
                    + decimal_text(path.len()) + " → "@ + decimal_text(p.path@.len())
                    + " elements"@
            },
        },
{
    if indices.len() == 0 {
        return Err("anchor_indices must not be empty".to_owned());
    }
    let k: usize = match find_path(nodes, name, true) {
        Err(e) => {
            return Err(e);
        },
        Ok(k) => k,
    };
    let count: usize = paths[k].len();
    if let Some(i) = find_beyond(indices, count) {
        let mut v = chars_of("Anchor index ");
        push_all(&mut v, &number_text(i as u64));
        push_str(&mut v, " out of range (path has ");
        push_all(&mut v, &number_text(count as u64));
        push_str(&mut v, " elements)");
        return Err(text_of(&v));
    }
    let path = remove_elements(&paths[k], indices);
    let removed: usize = count_dropped(indices, count);
    let mut v = chars_of("Deleted ");
    push_all(&mut v, &number_text(removed as u64));
    push_str(&mut v, " anchor(s) — ");
    push_all(&mut v, &number_text(count as u64));
    push_str(&mut v, " → ");
    push_all(&mut v, &number_text(path.len() as u64));
    push_str(&mut v, " elements");
    Ok(DeletePlan { position: k, path, removed, message: text_of(&v) })
}

proof fn lemma_trimmed_begins(path: Seq<PathEl>, indices: Seq<usize>, n: nat)
    ensures
        ({
            let s = trimmed_path(path, indices, n);
            s.out.len() > 0 ==> s.out[0] is MoveTo
        }),
        ({
            let s = trimmed_path(path, indices, n);
            s.out.len() == 0 ==> s.lifted
        }),
    decreases n,
{
    if n > 0 {
        lemma_trimmed_begins(path, indices, (n - 1) as nat);
    }
}

/// Whatever anchors are removed, what is left of a path begins with a move.
pub proof fn law_trimmed_path_begins_with_move(path: Seq<PathEl>, indices: Seq<usize>)
    ensures
        ({
            let out = trimmed_path(path, indices, path.len()).out;
            out.len() > 0 ==> out[0] is MoveTo
        }),
{
    lemma_trimmed_begins(path, indices, path.len());
}

proof fn lemma_trimmed_keeps(path: Seq<PathEl>, indices: Seq<usize>, n: nat)
    requires
        n <= path.len(),
        path.len() <= usize::MAX,
        path.len() > 0,
        path[0] is MoveTo,
        forall|i: int| 0 <= i < indices.len() ==> (#[trigger] indices[i]) >= path.len(),
    ensures
        trimmed_path(path, indices, n).out == path.take(n as int),
        trimmed_path(path, indices, n).lifted == (n == 0),
    decreases n,
{
    if n > 0 {
        lemma_trimmed_keeps(path, indices, (n - 1) as nat);
        assert(path.take(n as int) =~= path.take(n - 1).push(path[n - 1]));
        if n == 1 {
            assert(path.take(0) =~= Seq::empty());
        }
    } else {
        assert(path.take(0) =~= Seq::empty());
    }
}

/// A path from which no element is removed stays as it is, where it begins with a
/// move.
pub proof fn law_nothing_removed(path: Seq<PathEl>, indices: Seq<usize>)
    requires
        path.len() <= usize::MAX,
        path.len() > 0 ==> path[0] is MoveTo,
        forall|i: int| 0 <= i < indices.len() ==> (#[trigger] indices[i]) >= path.len(),
    ensures
        trimmed_path(path, indices, path.len()).out == path,
{
    if path.len() > 0 {
        lemma_trimmed_keeps(path, indices, path.len());
        assert(path.take(path.len() as int) =~= path);
    } else {
        assert(path =~= Seq::empty());
    }
}

/// The indices among `indices` that are not in `valid`, in order.
pub open spec fn not_among(indices: Seq<usize>, valid: Seq<usize>, n: nat) -> Seq<usize>
    decreases n,
{
    if n == 0 {
        Seq::empty()
    } else {
        let before = not_among(indices, valid, (n - 1) as nat);
        if valid.contains(indices[n - 1]) {
            before
        } else {
            before.push(indices[n - 1])
        }
    }
}

fn find_not_among(indices: &Vec<usize>, valid: &Vec<usize>) -> (r: Vec<usize>)
    ensures
        r@ == not_among(indices@, valid@, indices@.len()),
{
    let mut out: Vec<usize> = Vec::new();
    let mut i: usize = 0;
    while i < indices.len()
        invariant
            i <= indices.len(),
            out@ == not_among(indices@, valid@, i as nat),
        decreases indices.len() - i,
    {
        if !holds_index(valid, indices[i]) {
            out.push(indices[i]);
        }
        i += 1;
    }
    out
}

/// The first `n` indices of a list, with commas between them.
pub open spec fn index_list(v: Seq<usize>, n: nat) -> Seq<char>
    decreases n,
{
    if n == 0 {
        Seq::empty()
    } else if n == 1 {
        decimal_text(v[0] as nat)
    } else {
        index_list(v, (n - 1) as nat) + ", "@ + decimal_text(v[n - 1] as nat)
    }
}

/// A list of indices in brackets.
pub open spec fn bracketed(v: Seq<usize>) -> Seq<char> {
    "["@ + index_list(v, v.len()) + "]"@
}

fn list_indices(v: &Vec<usize>) -> (r: Vec<char>)
    ensures
        r@ == bracketed(v@),
{
    let mut list: Vec<char> = Vec::new();
    let mut i: usize = 0;
    while i < v.len()
        invariant
            i <= v.len(),
            list@ == index_list(v@, i as nat),
        decreases v.len() - i,
    {
        if i > 0 {
            push_str(&mut list, ", ");
        }
        push_all(&mut list, &number_text(v[i] as u64));
        i += 1;
        if i == 1 {
            assert(list@ =~= decimal_text(v@[0] as nat));
        }
    }
    let mut out = chars_of("[");
    push_all(&mut out, &list);
    push_str(&mut out, "]");
    out
}

/// Why no anchors are moved.
pub open spec fn move_error(
    nodes: Seq<Node>,
    anchors: Seq<Vec<usize>>,
    name: Seq<char>,
    indices: Seq<usize>,
) -> Option<Seq<char>> {
    if indices.len() == 0 {
        Some("anchor_indices must not be empty"@)
    } else if path_error(nodes, name, true) is Some {
        path_error(nodes, name, true)
    } else {
        let valid = anchors[target(nodes, name)]@;
        let invalid = not_among(indices, valid, indices.len());
        if invalid.len() > 0 {
            Some(
                "Invalid anchor_indices "@ + bracketed(invalid)
                    + "; this path's anchor element indices are "@ + bracketed(valid),
            )
        } else {
            None
        }
    }
}

/// Finds the path whose anchors are moved. `anchors` holds the indices of the
/// elements of each node's path that are anchors.
pub fn proportional_move_anchor(
    nodes: &Vec<Node>,
    anchors: &Vec<Vec<usize>>,
    name: &str,
    indices: &Vec<usize>,
) -> (r: Result<usize, String>)
    requires
        anchors.len() == nodes.len(),
    ensures
        match r {
            Err(e) => move_error(nodes@, anchors@, name@, indices@) == Some(e@),
            Ok(k) => move_error(nodes@, anchors@, name@, indices@) is None && k == target(
                nodes@,
                name@,
            ),
        },
{
    if indices.len() == 0 {
        return Err("anchor_indices must not be empty".to_owned());
    }
    let k: usize = match find_path(nodes, name, true) {
        Err(e) => {
            return Err(e);
        },
        Ok(k) => k,
    };
    let invalid = find_not_among(indices, &anchors[k]);
    if invalid.len() > 0 {
        let mut v = chars_of("Invalid anchor_indices ");
        push_all(&mut v, &list_indices(&invalid));
        push_str(&mut v, "; this path's anchor element indices are ");
        push_all(&mut v, &list_indices(&anchors[k]));
        return Err(text_of(&v));
    }
    Ok(k)
}

/// The sum of the first `n` lengths.
pub open spec fn length_of(lengths: Seq<Double>, n: nat) -> Double
    decreases n,
{
    if n == 0 {
        Double { bits: 0 }
    } else {
        f_add(length_of(lengths, (n - 1) as nat), lengths[n - 1])
    }
}

/// Adds up lengths.
pub fn total_length(lengths: &Vec<Double>) -> (r: Double)
    ensures
        r == length_of(lengths@, lengths@.len()),
{
    let mut sum = Double { bits: 0 };
    let mut i: usize = 0;
    while i < lengths.len()
        invariant
            i <= lengths.len(),
            sum == length_of(lengths@, i as nat),
        decreases lengths.len() - i,
    {
        sum = plus(sum, lengths[i]);
        i += 1;
    }
    sum
}

/// The place `wanted` along a path falls into the segment `i`.
pub open spec fn falls_into(lengths: Seq<Double>, wanted: Double, i: int) -> bool {
    f_at_most(wanted, f_add(length_of(lengths, i as nat), lengths[i])) || f_less(
        lengths[i],
        Double { bits: TINY },
    )
}

/// The first segment into which a place falls, from the segment `i` on.
pub open spec fn segment_from(lengths: Seq<Double>, wanted: Double, i: nat) -> Option<nat>
    decreases lengths.len() - i,
{
    if i >= lengths.len() {
        None
    } else if falls_into(lengths, wanted, i as int) {
        Some(i)
    } else {
        segment_from(lengths, wanted, i + 1)
    }
}

/// A place in a segment, and places just before and behind it from which the
/// direction is read. Each goes from 0 to 1 along the segment.
#[derive(Debug, Clone, Copy, PartialEq, Eq, Structural)]
pub struct PathPlace {
    pub segment: usize,
    pub at: Double,
    pub before: Double,
    pub behind: Double,
}

/// How far along its segment a place is.
pub open spec fn along_segment(lengths: Seq<Double>, wanted: Double, i: int) -> Double {
    if f_less(Double { bits: TINY }, lengths[i]) {
        f_over(f_sub(wanted, length_of(lengths, i as nat)), lengths[i])
    } else {
        Double { bits: HALF }
    }
}

/// A place on a path, as a share of its length.
pub open spec fn place_at(lengths: Seq<Double>, t: Double) -> Option<PathPlace> {
    let zero = (Double { bits: 0 });
    let one = (Double { bits: ONE });
    let wanted = f_mul(f_clamp(t, zero, one), length_of(lengths, lengths.len()));
    match segment_from(lengths, wanted, 0) {
        Some(i) => {
            let at = along_segment(lengths, wanted, i as int);
            let step = (Double { bits: EDGE_MARGIN });
            Some(
                PathPlace {
                    segment: i as usize,
                    at: f_clamp(at, zero, one),
                    before: f_max(f_sub(at, step), zero),
                    behind: f_min(f_add(at, step), one),
                },
            )
        },
        None => None,
    }
}

/// Finds a place on a path whose segments have these lengths. There is none where
/// rounding puts it behind the last segment.
pub fn find_place(lengths: &Vec<Double>, t: Double) -> (r: Option<PathPlace>)
    ensures
        r == place_at(lengths@, t),
{
    let zero = Double { bits: 0 };
    let one = Double { bits: ONE };
    let tiny = Double { bits: TINY };
    let wanted = times(clamped(t, zero, one), total_length(lengths));
    let mut sum = Double { bits: 0 };
    let mut i: usize = 0;
    while i < lengths.len()
        invariant
            i <= lengths.len(),
            tiny == (Double { bits: TINY }),
            zero == (Double { bits: 0 }),
            one == (Double { bits: ONE }),
            wanted == f_mul(f_clamp(t, zero, one), length_of(lengths@, lengths@.len())),
            sum == length_of(lengths@, i as nat),
            segment_from(lengths@, wanted, 0) == segment_from(lengths@, wanted, i as nat),
        decreases lengths.len() - i,
    {
        let length = lengths[i];
        if at_most(wanted, plus(sum, length)) || less(length, tiny) {
            let at = if less(tiny, length) {
                over(minus(wanted, sum), length)
            } else {
                Double { bits: HALF }
            };
            let step = Double { bits: EDGE_MARGIN };
            return Some(
                PathPlace {
                    segment: i,
                    at: clamped(at, zero, one),
                    before: maximum(minus(at, step), zero),
                    behind: minimum(plus(at, step), one),
                },
            );
        }
        sum = plus(sum, length);
        i += 1;
    }
    None
}

/// Why there are no places on a path.
pub open spec fn place_error(nodes: Seq<Node>, lengths: Seq<Vec<Double>>, name: Seq<char>) -> Option<
    Seq<char>,
> {
    if path_error(nodes, name, false) is Some {
        path_error(nodes, name, false)
    } else {
        let own = lengths[target(nodes, name)]@;
        if own.len() == 0 {
            Some("Path has no segments"@)
        } else if f_less(length_of(own, own.len()), Double { bits: TINY }) {
            Some("Path has zero length"@)
        } else {
            None
        }
    }
}

/// The places on the path that is named. `lengths` holds the lengths of the segments
/// of each node's path.
pub fn point_on_path(
    nodes: &Vec<Node>,
    lengths: &Vec<Vec<Double>>,
    name: &str,
    ts: &Vec<Double>,
) -> (r: Result<(usize, Vec<Option<PathPlace>>), String>)
    requires
        lengths.len() == nodes.len(),
    ensures
        match r {
            Err(e) => place_error(nodes@, lengths@, name@) == Some(e@),
            Ok((k, places)) => {
                &&& place_error(nodes@, lengths@, name@) is None
                &&& k == target(nodes@, name@)
                &&& places@ == Seq::new(
                    ts@.len(),
                    |i: int| place_at(lengths@[target(nodes@, name@)]@, ts@[i]),
                )
            },
        },
{
    let k: usize = match find_path(nodes, name, false) {
        Err(e) => {
            return Err(e);
        },
        Ok(k) => k,
    };
    let own = &lengths[k];
    if own.len() == 0 {
        return Err("Path has no segments".to_owned());
    }
    if less(total_length(own), Double { bits: TINY }) {
        return Err("Path has zero length".to_owned());
    }
    let ghost goal = Seq::new(ts@.len(), |i: int| place_at(own@, ts@[i]));
    let mut out: Vec<Option<PathPlace>> = Vec::new();
    let mut i: usize = 0;
    while i < ts.len()
        invariant
            i <= ts.len(),
            goal == Seq::new(ts@.len(), |i: int| place_at(own@, ts@[i])),
            out@ == goal.take(i as int),
        decreases ts.len() - i,
    {
        out.push(find_place(own, ts[i]));
        i += 1;
        assert(out@ =~= goal.take(i as int));
    }
    assert(out@ =~= goal);
    Ok((k, out))
}

proof fn lemma_segment_from(lengths: Seq<Double>, wanted: Double, i: nat)
    ensures
        match segment_from(lengths, wanted, i) {
            Some(k) => {
                &&& i <= k < lengths.len()
                &&& falls_into(lengths, wanted, k as int)
                &&& forall|j: int| i <= j < k ==> !#[trigger] falls_into(lengths, wanted, j)
            },
            None => forall|j: int|
                i <= j < lengths.len() ==> !#[trigger] falls_into(lengths, wanted, j),
        },
    decreases lengths.len() - i,
{
    if i < lengths.len() && !falls_into(lengths, wanted, i as int) {
        lemma_segment_from(lengths, wanted, i + 1);
    }
}

/// A place lies in the first segment of the path into which it falls.
pub proof fn law_place_is_in_first_segment(lengths: Seq<Double>, wanted: Double)
    ensures
        match segment_from(lengths, wanted, 0) {
            Some(k) => {
                &&& k < lengths.len()
                &&& falls_into(lengths, wanted, k as int)
                &&& forall|j: int| 0 <= j < k ==> !#[trigger] falls_into(lengths, wanted, j)
            },
            None => forall|j: int|
                0 <= j < lengths.len() ==> !#[trigger] falls_into(lengths, wanted, j),
        },
{
    lemma_segment_from(lengths, wanted, 0);
}

/// What a path measures.
#[derive(Debug, Clone, Copy, PartialEq, Eq, Structural)]
pub struct PathMeasure {
    pub position: usize,
    pub elements: usize,
    pub segments: usize,
    pub length: Double,
    pub anchors: usize,
    pub closed: bool,
}

/// How many of the first `n` elements are anchors.
pub open spec fn anchor_count(path: Seq<PathEl>, n: nat) -> nat
    decreases n,
{
    if n == 0 {
        0
    } else {
        anchor_count(path, (n - 1) as nat) + if path[n - 1] is ClosePath {
            0nat
        } else {
            1
        }
    }
}

/// Some element closes the path.
pub open spec fn is_closed(path: Seq<PathEl>) -> bool {
    exists|i: int| 0 <= i < path.len() && (#[trigger] path[i]) is ClosePath
}

/// Measures the path that is named. `lengths` holds the lengths of the segments of
/// each node's path, `paths` its elements.
pub fn measure_path(
    nodes: &Vec<Node>,
    paths: &Vec<Vec<PathEl>>,
    lengths: &Vec<Vec<Double>>,
    name: &str,
) -> (r: Result<PathMeasure, String>)
    requires
        paths.len() == nodes.len(),
        lengths.len() == nodes.len(),
    ensures
        match r {
            Err(e) => path_error(nodes@, name@, false) == Some(e@),
            Ok(m) => {
                let k = target(nodes@, name@);
                &&& path_error(nodes@, name@, false) is None
                &&& m.position == k
                &&& m.elements == paths@[k]@.len()
                &&& m.segments == lengths@[k]@.len()
                &&& m.length == length_of(lengths@[k]@, lengths@[k]@.len())
                &&& m.anchors == anchor_count(paths@[k]@, paths@[k]@.len())
                &&& m.closed == is_closed(paths@[k]@)
            },
        },
{
    let k: usize = match find_path(nodes, name, false) {
        Err(e) => {
            return Err(e);
        },
        Ok(k) => k,
    };
    let path = &paths[k];
    let mut anchors: usize = 0;
    let mut closed = false;
    let mut i: usize = 0;
    while i < path.len()
        invariant
            i <= path.len(),
            anchors <= i,
            anchors == anchor_count(path@, i as nat),
            closed == exists|j: int| 0 <= j < i && (#[trigger] path@[j]) is ClosePath,
        decreases path.len() - i,
    {
        match path[i] {
            PathEl::ClosePath => {
                assert(path@[i as int] is ClosePath);
                closed = true;
            },
            _ => {
                anchors += 1;
            },
        }
        i += 1;
    }
    Ok(
        PathMeasure {
            position: k,
            elements: path.len(),
            segments: lengths[k].len(),
            length: total_length(&lengths[k]),
            anchors,
            closed,
        },
    )
}

/// Why a path is not made simpler.
pub open spec fn simplify_error(nodes: Seq<Node>, id: u128, tolerance: Double) -> Option<Seq<char>> {
    if f_at_most(tolerance, Double { bits: 0 }) {
        Some("tolerance must be > 0"@)
    } else if !has_node(nodes, id) {
        Some("Node not found: "@ + id_text(id))
    } else if nodes[position_of(nodes, id)].kind != NodeKind::Path {
        Some("Node must be a path node"@)
    } else {
        None
    }
}

/// A path that is made simpler, by how many per cent, and whether it is changed.
#[derive(Debug, Clone, Copy, PartialEq, Eq, Structural)]
pub struct SimplifyPlan {
    pub position: usize,
    pub reduction: Double,
    pub applied: bool,
}

/// By how many per cent a number of points grows less.
pub open spec fn reduction_of(original: nat, simplified: nat) -> Double {
    f_mul(
        whole(100),
        f_sub(
            Double { bits: ONE },
            f_over(
                whole(simplified),
                whole(
                    if original >= 1 {
                        original
                    } else {
                        1
                    },
                ),
            ),
        ),
    )
}

/// Makes a path simpler. `original` and `simplified` are the numbers of points before
/// and after. A dry run changes nothing.
pub fn simplify_path(
    nodes: &Vec<Node>,
    id: u128,
    tolerance: Double,
    original: usize,
    simplified: usize,
    dry_run: bool,
) -> (r: Result<SimplifyPlan, String>)
    ensures
        match r {
            Err(e) => simplify_error(nodes@, id, tolerance) == Some(e@),
            Ok(p) => {
                &&& simplify_error(nodes@, id, tolerance) is None
                &&& p.position == position_of(nodes@, id)
                &&& p.reduction == reduction_of(original as nat, simplified as nat)
                &&& p.applied == !dry_run
            },
        },
{
    if at_most(tolerance, Double { bits: 0 }) {
        return Err("tolerance must be > 0".to_owned());
    }
    let k: usize = match find_node(nodes, id) {
        Some(k) => k,
        None => {
            let mut v = chars_of("Node not found: ");
            push_id(&mut v, id);
            return Err(text_of(&v));
        },
    };
    if nodes[k].kind != NodeKind::Path {
        return Err("Node must be a path node".to_owned());
    }
    let most: usize = if original >= 1 {
        original
    } else {
        1
    };
    let left = over(from_count(simplified as u64), from_count(most as u64));
    Ok(
        SimplifyPlan {
            position: k,
            reduction: times(from_count(100), minus(Double { bits: ONE }, left)),
            applied: !dry_run,
        },
    )
}

/// What becomes of the paths that are joined.
#[derive(Debug, Clone, Copy, PartialEq, Eq, Structural)]
pub enum JoinPlan {
    /// The open parts of a path are closed.
    Close(usize),
    /// The second path becomes part of the first and goes.
    Join(usize, usize),
}

/// Why no paths are joined.
pub open spec fn join_error(nodes: Seq<Node>, ids: Seq<u128>) -> Option<Seq<char>> {
    if ids.len() == 0 || ids.len() > 2 {
        Some("node_ids must contain 1 or 2 path node IDs"@)
    } else if !has_node(nodes, ids[0]) {
        Some("node "@ + id_text(ids[0]) + " not found"@)
    } else if ids.len() == 1 {
        if nodes[position_of(nodes, ids[0])].kind != NodeKind::Path {
            Some("node is not a path node"@)
        } else {
            None
        }
    } else if !has_node(nodes, ids[1]) {
        Some("node "@ + id_text(ids[1]) + " not found"@)
    } else if nodes[position_of(nodes, ids[0])].kind != NodeKind::Path {
        Some("node "@ + id_text(ids[0]) + " is not a path node"@)
    } else if nodes[position_of(nodes, ids[1])].kind != NodeKind::Path {
        Some("node "@ + id_text(ids[1]) + " is not a path node"@)
    } else {
        None
    }
}

/// Closes one path, or joins two.
pub fn join_paths(nodes: &Vec<Node>, ids: &Vec<u128>) -> (r: Result<(JoinPlan, String), String>)
    ensures
        match r {
            Err(e) => join_error(nodes@, ids@) == Some(e@),
            Ok((plan, message)) => {
                &&& join_error(nodes@, ids@) is None
                &&& if ids@.len() == 1 {
                    &&& plan == JoinPlan::Close(position_of(nodes@, ids@[0]) as usize)
                    &&& message@ == "Closed open subpaths."@
                } else {
                    &&& plan == JoinPlan::Join(
                        position_of(nodes@, ids@[0]) as usize,
                        position_of(nodes@, ids@[1]) as usize,
                    )
                    &&& message@ == "Joined two paths into one."@
                }
            },
        },
{
    if ids.len() == 0 || ids.len() > 2 {
        return Err("node_ids must contain 1 or 2 path node IDs".to_owned());
    }
    let first: usize = match find_node(nodes, ids[0]) {
        Some(k) => k,
        None => {
            return Err(around_id("node ", ids[0], " not found"));
        },
    };
    if ids.len() == 1 {
        if nodes[first].kind != NodeKind::Path {
            return Err("node is not a path node".to_owned());
        }
        return Ok((JoinPlan::Close(first), "Closed open subpaths.".to_owned()));
    }
    let second: usize = match find_node(nodes, ids[1]) {
        Some(k) => k,
        None => {
            return Err(around_id("node ", ids[1], " not found"));
        },
    };
    if nodes[first].kind != NodeKind::Path {
        return Err(around_id("node ", ids[0], " is not a path node"));
    }
    if nodes[second].kind != NodeKind::Path {
        return Err(around_id("node ", ids[1], " is not a path node"));
    }
    Ok((JoinPlan::Join(first, second), "Joined two paths into one.".to_owned()))
}

/// The map that undoes a map.
pub open spec fn inverse(m: Affine) -> Affine {
    let s = f_over(Double { bits: ONE }, f_sub(f_mul(m.a, m.d), f_mul(m.b, m.c)));
    Affine {
        a: f_mul(s, m.d),
        b: f_mul(f_neg(s), m.b),
        c: f_mul(f_neg(s), m.c),
        d: f_mul(s, m.a),
        e: f_mul(s, f_sub(f_mul(m.c, m.f), f_mul(m.d, m.e))),
        f: f_mul(s, f_sub(f_mul(m.b, m.e), f_mul(m.a, m.f))),
    }
}

/// Finds the map that undoes a map.
pub fn invert(m: &Affine) -> (r: Affine)
    ensures
        r == inverse(*m),
{
    let s = over(Double { bits: ONE }, minus(times(m.a, m.d), times(m.b, m.c)));
    let t = negated(s);
    Affine {
        a: times(s, m.d),
        b: times(t, m.b),
        c: times(t, m.c),
        d: times(s, m.a),
        e: times(s, minus(times(m.c, m.f), times(m.d, m.e))),
        f: times(s, minus(times(m.b, m.e), times(m.a, m.f))),
    }
}

/// Why a path cannot be cut at all.
pub open spec fn cut_error(nodes: Seq<Node>, sizes: Seq<usize>, id: u128) -> Option<Seq<char>> {
    if !has_node(nodes, id) {
        Some("Node "@ + id_text(id) + " not found"@)
    } else if nodes[position_of(nodes, id)].kind != NodeKind::Path {
        Some("scissors_cut only works on path nodes"@)
    } else if sizes[position_of(nodes, id)] == 0 {
        Some("Path has no segments to cut"@)
    } else {
        None
    }
}

fn find_cut_path(nodes: &Vec<Node>, sizes: &Vec<usize>, id: u128) -> (r: Result<usize, String>)
    requires
        sizes.len() == nodes.len(),
    ensures
        match r {
            Err(e) => cut_error(nodes@, sizes@, id) == Some(e@),
            Ok(k) => cut_error(nodes@, sizes@, id) is None && k == position_of(nodes@, id) && k
                < nodes.len(),
        },
{
    let k: usize = match find_node(nodes, id) {
        Some(k) => k,
        None => {
            return Err(around_id("Node ", id, " not found"));
        },
    };
    if nodes[k].kind != NodeKind::Path {
        return Err("scissors_cut only works on path nodes".to_owned());
    }
    if sizes[k] == 0 {
        return Err("Path has no segments to cut".to_owned());
    }
    Ok(k)
}

/// Finds where a path is cut, in the path's own coordinates. `sizes` holds the number
/// of elements of each node's path.
pub fn find_cut(nodes: &Vec<Node>, sizes: &Vec<usize>, id: u128, canvas: Point) -> (r: Result<
    Point,
    String,
>)
    requires
        sizes.len() == nodes.len(),
    ensures
        match r {
            Err(e) => cut_error(nodes@, sizes@, id) == Some(e@),
            Ok(p) => cut_error(nodes@, sizes@, id) is None && p == mapped(
                inverse(nodes@[position_of(nodes@, id)].transform),
                canvas,
            ),
        },
{
    match find_cut_path(nodes, sizes, id) {
        Err(e) => Err(e),
        Ok(k) => Ok(map_point(&invert(&nodes[k].transform), canvas)),
    }
}

/// The two paths that a path is cut into: they replace it, and are drawn like it.
#[derive(Debug)]
pub struct CutPlan {
    pub position: usize,
    pub first: String,
    pub second: String,
    pub message: String,
}

/// Cuts a path in two. `split` tells whether the path could be cut at the place that
/// [`find_cut`] gives.
pub fn scissors_cut(
    nodes: &Vec<Node>,
    sizes: &Vec<usize>,
    id: u128,
    split: bool,
) -> (r: Result<CutPlan, String>)
    requires
        sizes.len() == nodes.len(),
    ensures
        match r {
            Err(e) => {
                ||| cut_error(nodes@, sizes@, id) == Some(e@)
                ||| cut_error(nodes@, sizes@, id) is None && !split && e@
                    == "Could not split path — cut point may be at an endpoint or the path is degenerate"@
            },
            Ok(p) => {
                &&& cut_error(nodes@, sizes@, id) is None && split
                &&& p.position == position_of(nodes@, id)
                &&& p.first@ == nodes@[p.position as int].name@ + " (1/2)"@
                &&& p.second@ == nodes@[p.position as int].name@ + " (2/2)"@
                &&& p.message@ == "Cut path into 2 open paths"@
            },
        },
{
    let k: usize = match find_cut_path(nodes, sizes, id) {
        Err(e) => {
            return Err(e);
        },
        Ok(k) => k,
    };
    if !split {
        return Err(
            "Could not split path — cut point may be at an endpoint or the path is degenerate".to_owned(),
        );
    }
    let name = nodes[k].name.as_str();
    Ok(
        CutPlan {
            position: k,
            first: joined(name, " (1/2)"),
            second: joined(name, " (2/2)"),
            message: "Cut path into 2 open paths".to_owned(),
        },
    )
}


/// Exchanging across and down in a matrix exchanges them in its inverse, and what does not
/// lean one way does not lean that way in the inverse.
pub proof fn law_inverse_treats_axes_alike(m: Affine)
    ensures
        ({
            let t = Affine { a: m.d, b: m.c, c: m.b, d: m.a, e: m.f, f: m.e };
            let r = inverse(m);
            let s = inverse(t);
            &&& s.a == r.d && s.d == r.a && s.b == r.c && s.c == r.b
            &&& s.e == r.f && s.f == r.e
        }),
{
    lemma_product_commutes(m.a, m.d);
    lemma_product_commutes(m.b, m.c);
}

/// The inverse of a move goes back, and it leans the way that the matrix does.
pub proof fn law_inverse_goes_back(m: Affine)
    requires
        m.a == whole(1),
        m.d == whole(1),
        m.b.bits == 0,
        m.c.bits == 0,
        m.e.wf(),
        m.f.wf(),
    ensures
        ({
            let r = inverse(m);
            &&& r.a == whole(1) && r.d == whole(1)
            &&& r.b.key() == 0 && r.c.key() == 0
            &&& r.e.key() == -m.e.key() && r.f.key() == -m.f.key()
            &&& mapped(m, Point { x: r.e, y: r.f }).x.key() == 0
            &&& mapped(m, Point { x: r.e, y: r.f }).y.key() == 0
        }),
{
    let one = whole(1);
    let zero = (Double { bits: 0 });
    lemma_one();
    lemma_times_one(one);
    lemma_nothing_times(zero, zero);
    lemma_neg(f_mul(zero, zero));
    lemma_plus_nothing(one, f_neg(f_mul(zero, zero)));
    assert(f_over(one, one) == one) by {
        lemma_share_of_itself(1);
    }
    lemma_neg(one);
    lemma_nothing_times(zero, f_neg(one));
    lemma_gone_back(m.f, m.e);
    lemma_gone_back(m.e, m.f);
}

proof fn lemma_gone_back(f: Double, e: Double)
    requires
        f.wf(),
        e.wf(),
    ensures
        ({
            let zero = (Double { bits: 0 });
            let one = whole(1);
            let r = f_mul(one, f_sub(f_mul(zero, f), f_mul(one, e)));
            let s = f_mul(one, f_sub(f_mul(zero, e), f_mul(one, f)));
            &&& r.key() == -e.key()
            &&& f_add(f_add(f_mul(one, r), f_mul(zero, s)), e).key() == 0
            &&& f_add(f_add(f_mul(zero, s), f_mul(one, r)), e).key() == 0
        }),
{
    let zero = (Double { bits: 0 });
    let one = whole(1);
    lemma_times_one(e);
    lemma_times_one(f);
    lemma_nothing_times(zero, f);
    lemma_nothing_times(zero, e);
    lemma_neg(e);
    lemma_neg(f);
    lemma_plus_nothing(f_neg(e), f_mul(zero, f));
    lemma_plus_nothing(f_neg(f), f_mul(zero, e));
    let r = f_sub(f_mul(zero, f), e);
    let s = f_sub(f_mul(zero, e), f);
    lemma_same_value(r, f_neg(e));
    lemma_same_value(s, f_neg(f));
    lemma_times_one(r);
    lemma_times_one(s);
    lemma_nothing_times(zero, s);
    let z = f_mul(zero, s);
    lemma_plus_nothing(r, z);
    lemma_same_value(f_add(r, z), r);
    lemma_same_value(f_add(z, r), r);
    let a = f_add(r, z);
    let b = f_add(z, r);
    lemma_sum_value(a, e);
    lemma_sum_value(b, e);
    lemma_power_positive(2, 1074);
    lemma_zero_rounds(one_units());
}

/// Where a matrix does not lean down, or across, its inverse does not either.
pub proof fn law_inverse_leans_the_same_way(m: Affine)
    requires
        m.b.wf(),
        m.c.wf(),
        f_over(
            Double { bits: ONE },
            f_sub(f_mul(m.a, m.d), f_mul(m.b, m.c)),
        ).wf(),
    ensures
        m.b.key() == 0 ==> inverse(m).b.key() == 0,
        m.c.key() == 0 ==> inverse(m).c.key() == 0,
{
    let s = f_over(Double { bits: ONE }, f_sub(f_mul(m.a, m.d), f_mul(m.b, m.c)));
    lemma_neg(s);
    if m.b.key() == 0 {
        lemma_nothing_times(m.b, f_neg(s));
    }
    if m.c.key() == 0 {
        lemma_nothing_times(m.c, f_neg(s));
    }
}


/// The two places beside a place on a path lie on its two sides: the one before it no later,
/// the one behind it no earlier.
pub proof fn law_place_lies_between(lengths: Seq<Double>, t: Double)
    ensures
        place_at(lengths, t) matches Some(p) ==> {
            let wanted = f_mul(
                f_clamp(t, Double { bits: 0 }, Double { bits: ONE }),
                length_of(lengths, lengths.len()),
            );
            let at = along_segment(lengths, wanted, p.segment as int);
            lengths.len() <= usize::MAX && 0 <= at.key() <= ONE ==> p.at.key() == at.key()
                && p.before.key() <= p.at.key() <= p.behind.key()
        },
{
    if place_at(lengths, t) is Some && lengths.len() <= usize::MAX {
        let p = place_at(lengths, t)->0;
        let zero = (Double { bits: 0 });
        let wanted = f_mul(
            f_clamp(t, zero, Double { bits: ONE }),
            length_of(lengths, lengths.len()),
        );
        lemma_segment_inside(lengths, wanted, 0);
        let at = along_segment(lengths, wanted, p.segment as int);
        if 0 <= at.key() <= ONE {
            let step = (Double { bits: EDGE_MARGIN });
            lemma_neg(step);
            assert(at.wf());
            lemma_sum_keeps_order(f_neg(step), zero, at);
            lemma_sum_keeps_order(zero, step, at);
            lemma_plus_nothing(at, zero);
            lemma_sum_commutes(f_neg(step), at);
            lemma_sum_commutes(step, at);
        }
    }
}

proof fn lemma_segment_inside(lengths: Seq<Double>, wanted: Double, i: nat)
    ensures
        segment_from(lengths, wanted, i) matches Some(k) ==> k < lengths.len(),
    decreases lengths.len() - i,
{
    if i < lengths.len() && !falls_into(lengths, wanted, i as int) {
        lemma_segment_inside(lengths, wanted, i + 1);
    }
}

} // verus!
