//! An accepted SVG file as an icon: every node is imported with all that its
//! ancestors and the icon's box do to it, and the groups stay where they are.
use crate::bezier::{law_mapped_units, mapped, Affine, Point};
use crate::copies::{compose, composed, lemma_moved_axis};
use crate::double::Double;
use crate::float::{absolute, exact, f_abs, f_mul, f_sqrt, f_sub, minus, square_root, times, whole};
use crate::plan::is_finite;
use crate::steps::{is_plain, lemma_sum_commutes};
use crate::svg::{
    find_node, hung, import_order, import_steps, lemma_mark, node_index, place_picture, placement,
    svg_import_order, unmarked, ImportStep, SvgDocument, SvgNode,
};
use crate::text::{chars_of, joined, text_of};
use vstd::prelude::*;

verus! {

const ONE: u64 = 0x3FF0_0000_0000_0000;

/// The map that moves nothing.
pub open spec fn unmoved() -> Affine {
    let zero = (Double { bits: 0 });
    let one = (Double { bits: 0x3FF0_0000_0000_0000 });
    Affine { a: one, b: zero, c: zero, d: one, e: zero, f: zero }
}

/// The map of a node as the file has it.
pub open spec fn own_map(node: SvgNode) -> Affine {
    let m = node.matrix@;
    Affine { a: m[0], b: m[1], c: m[2], d: m[3], e: m[4], f: m[5] }
}

fn find_own_map(node: &SvgNode) -> (r: Affine)
    ensures
        r == own_map(*node),
{
    Affine {
        a: node.matrix[0],
        b: node.matrix[1],
        c: node.matrix[2],
        d: node.matrix[3],
        e: node.matrix[4],
        f: node.matrix[5],
    }
}

/// How a picture gets into the box of an icon.
pub open spec fn box_map(doc: SvgDocument, x: Double, y: Double, size: Double) -> Affine {
    let (scale, left, top) = placement(doc.width, doc.height, x, y, size);
    let zero = (Double { bits: 0 });
    Affine { a: scale, b: zero, c: zero, d: scale, e: left, f: top }
}

/// The first of the first `n` steps that imports the node `index`.
pub open spec fn step_of(steps: Seq<ImportStep>, index: usize, n: nat) -> Option<nat>
    decreases n,
{
    if n == 0 {
        None
    } else {
        match step_of(steps, index, (n - 1) as nat) {
            Some(k) => Some(k),
            None => if steps[n - 1].index == index {
                Some((n - 1) as nat)
            } else {
                None
            },
        }
    }
}

proof fn lemma_step_of(steps: Seq<ImportStep>, index: usize, n: nat)
    ensures
        match step_of(steps, index, n) {
            Some(k) => k < n && steps[k as int].index == index,
            None => forall|j: int| 0 <= j < n ==> (#[trigger] steps[j]).index != index,
        },
    decreases n,
{
    if n > 0 {
        lemma_step_of(steps, index, (n - 1) as nat);
    }
}

/// Where the node of step `i` ends up: its own map, then those of its ancestors
/// from the inside out, then the map into the box.
pub open spec fn world(
    nodes: Seq<SvgNode>,
    steps: Seq<ImportStep>,
    into_box: Affine,
    i: nat,
) -> Affine
    decreases i,
{
    let own = own_map(nodes[steps[i as int].index as int]);
    match steps[i as int].parent {
        None => composed(into_box, own),
        Some(p) => match step_of(steps, p, i) {
            Some(j) => if j < i {
                composed(world(nodes, steps, into_box, j), own)
            } else {
                composed(into_box, own)
            },
            None => composed(into_box, own),
        },
    }
}

/// By how much a map stretches a stroke: the root of its area factor.
pub open spec fn stretch(m: Affine) -> Double {
    f_sqrt(f_abs(f_sub(f_mul(m.a, m.d), f_mul(m.b, m.c))))
}

/// The nodes among `ids` that the document has.
pub open spec fn known(nodes: Seq<SvgNode>, ids: Seq<u128>) -> Seq<nat>
    decreases ids.len(),
{
    if ids.len() == 0 {
        Seq::empty()
    } else {
        match node_index(nodes, ids.last()) {
            Some(k) => known(nodes, ids.drop_last()).push(k),
            None => known(nodes, ids.drop_last()),
        }
    }
}

pub open spec fn numbers(v: Seq<usize>) -> Seq<nat> {
    v.map_values(|k: usize| k as nat)
}

fn find_known(nodes: &Vec<SvgNode>, ids: &Vec<u128>) -> (r: Vec<usize>)
    ensures
        numbers(r@) == known(nodes@, ids@),
{
    let mut out: Vec<usize> = Vec::new();
    let mut i: usize = 0;
    assert(numbers(out@) =~= known(nodes@, ids@.take(0)));
    while i < ids.len()
        invariant
            i <= ids.len(),
            numbers(out@) == known(nodes@, ids@.take(i as int)),
        decreases ids.len() - i,
    {
        let ghost before = out@;
        assert(ids@.take(i + 1).drop_last() =~= ids@.take(i as int));
        if let Some(k) = find_node(nodes, ids[i]) {
            out.push(k);
            assert(numbers(out@) =~= numbers(before).push(k as nat));
        }
        i += 1;
    }
    assert(ids@.take(ids@.len() as int) =~= ids@);
    out
}

/// A node of the icon.
#[derive(Debug)]
pub struct IconPart {
    /// The node of the document that is copied.
    pub index: usize,
    /// What its gradients in user space are moved by.
    pub world: Affine,
    /// The map of the copy.
    pub transform: Affine,
    /// What the width, the dashes and the dash offset of its stroke are
    /// multiplied by, if it has one.
    pub stroke_scale: Option<Double>,
    /// The children of a group, as nodes of the document.
    pub children: Vec<usize>,
}

/// What step `i` of the import makes.
pub open spec fn is_part(
    p: IconPart,
    nodes: Seq<SvgNode>,
    steps: Seq<ImportStep>,
    into_box: Affine,
    i: nat,
) -> bool {
    let node = nodes[steps[i as int].index as int];
    let w = world(nodes, steps, into_box, i);
    &&& p.index == steps[i as int].index
    &&& p.world == w
    &&& p.transform == if node.group {
        unmoved()
    } else {
        w
    }
    &&& p.stroke_scale == if !node.group && stretch(w).wf() {
        Some(stretch(w))
    } else {
        None::<Double>
    }
    &&& numbers(p.children@) == if node.group {
        known(nodes, node.children@)
    } else {
        Seq::empty()
    }
}

/// An icon: its parts in the order in which they are made, and the group that
/// holds them.
#[derive(Debug)]
pub struct IconPlan {
    pub parts: Vec<IconPart>,
    /// The children of the icon's group, as nodes of the document.
    pub roots: Vec<usize>,
    pub name: String,
    pub role_tag: String,
    pub source_tag: String,
    pub file_tag: String,
}

fn find_step(steps: &Vec<ImportStep>, index: usize, n: usize) -> (r: Option<usize>)
    requires
        n <= steps.len(),
    ensures
        match r {
            Some(k) => k < n && step_of(steps@, index, n as nat) == Some(k as nat),
            None => step_of(steps@, index, n as nat) is None,
        },
{
    let mut i: usize = 0;
    while i < n
        invariant
            i <= n <= steps.len(),
            step_of(steps@, index, i as nat) is None,
        decreases n - i,
    {
        if steps[i].index == index {
            proof {
                lemma_found_stays(steps@, index, (i + 1) as nat, n as nat);
            }
            return Some(i);
        }
        i += 1;
    }
    None
}

proof fn lemma_found_stays(steps: Seq<ImportStep>, index: usize, i: nat, n: nat)
    requires
        i <= n,
        step_of(steps, index, i) is Some,
    ensures
        step_of(steps, index, n) == step_of(steps, index, i),
    decreases n - i,
{
    if i < n {
        lemma_found_stays(steps, index, i, (n - 1) as nat);
    }
}

fn make_part(node: &SvgNode, nodes: &Vec<SvgNode>, index: usize, w: Affine) -> (r: IconPart)
    ensures
        r.index == index,
        r.world == w,
        r.transform == if node.group {
            unmoved()
        } else {
            w
        },
        r.stroke_scale == if !node.group && stretch(w).wf() {
            Some(stretch(w))
        } else {
            None::<Double>
        },
        numbers(r.children@) == if node.group {
            known(nodes@, node.children@)
        } else {
            Seq::empty()
        },
{
    if node.group {
        let zero = Double { bits: 0 };
        let one = Double { bits: ONE };
        IconPart {
            index,
            world: w,
            transform: Affine { a: one, b: zero, c: zero, d: one, e: zero, f: zero },
            stroke_scale: None,
            children: find_known(nodes, &node.children),
        }
    } else {
        let s = square_root(absolute(minus(times(w.a, w.d), times(w.b, w.c))));
        let children: Vec<usize> = Vec::new();
        assert(numbers(children@) =~= Seq::empty());
        IconPart {
            index,
            world: w,
            transform: w,
            stroke_scale: if is_finite(s) {
                Some(s)
            } else {
                None
            },
            children,
        }
    }
}

/// The icon that a document makes in a square box of the side `size` at
/// (`x`, `y`).
pub fn append_svg_asset(
    doc: &SvgDocument,
    app_name: &str,
    source_url: &str,
    path: &str,
    x: Double,
    y: Double,
    size: Double,
) -> (r: IconPlan)
    requires
        doc.width.wf(),
        doc.height.wf(),
        doc.width.key() > 0,
        doc.height.key() > 0,
    ensures
        r.parts@.len() == import_order(*doc).len(),
        forall|i: int|
            0 <= i < r.parts@.len() ==> is_part(
                #[trigger] r.parts@[i],
                doc.nodes@,
                import_order(*doc),
                box_map(*doc, x, y, size),
                i as nat,
            ),
        numbers(r.roots@) == known(doc.nodes@, doc.roots@),
        r.name@ == "App icon: "@ + app_name@,
        r.role_tag@ == "react-role:image"@,
        r.source_tag@ == "source:"@ + source_url@,
        r.file_tag@ == "source-file:"@ + path@,
{
    let (scale, left, top) = place_picture(doc.width, doc.height, x, y, size);
    let zero = Double { bits: 0 };
    let into_box = Affine { a: scale, b: zero, c: zero, d: scale, e: left, f: top };
    let steps = svg_import_order(doc);
    proof {
        crate::svg::law_imported_once(*doc);
    }
    let mut parts: Vec<IconPart> = Vec::new();
    let mut i: usize = 0;
    while i < steps.len()
        invariant
            i <= steps.len(),
            parts.len() == i,
            forall|j: int|
                0 <= j < steps@.len() ==> (#[trigger] steps@[j]).index < doc.nodes@.len(),
            forall|j: int|
                0 <= j < i ==> is_part(
                    #[trigger] parts@[j],
                    doc.nodes@,
                    steps@,
                    into_box,
                    j as nat,
                ),
        decreases steps.len() - i,
    {
        let node = &doc.nodes[steps[i].index];
        let own = find_own_map(node);
        let w = match steps[i].parent {
            None => compose(&into_box, &own),
            Some(p) => match find_step(&steps, p, i) {
                Some(j) => {
                    assert(is_part(parts@[j as int], doc.nodes@, steps@, into_box, j as nat));
                    compose(&parts[j].world, &own)
                },
                None => compose(&into_box, &own),
            },
        };
        let part = make_part(node, &doc.nodes, steps[i].index, w);
        assert(is_part(part, doc.nodes@, steps@, into_box, i as nat));
        parts.push(part);
        i += 1;
    }
    IconPlan {
        parts,
        roots: find_known(&doc.nodes, &doc.roots),
        name: joined("App icon: ", app_name),
        role_tag: text_of(&chars_of("react-role:image")),
        source_tag: joined("source:", source_url),
        file_tag: joined("source-file:", path),
    }
}

/// What waits hangs on nodes that are already imported.
pub open spec fn hangs_on(stack: Seq<(u128, Option<usize>)>, steps: Seq<ImportStep>) -> bool {
    forall|i: int|
        0 <= i < stack.len() ==> match (#[trigger] stack[i]).1 {
            None => true,
            Some(p) => imports(steps, p, steps.len() as int),
        }
}

/// One of the first `n` steps imports the node `p`.
pub open spec fn imports(steps: Seq<ImportStep>, p: usize, n: int) -> bool {
    exists|j: int| 0 <= j < n && (#[trigger] steps[j]).index == p
}

/// Every step hangs on an earlier one, or on none.
pub open spec fn in_order(steps: Seq<ImportStep>) -> bool {
    forall|i: int|
        0 <= i < steps.len() ==> match (#[trigger] steps[i]).parent {
            None => true,
            Some(p) => imports(steps, p, i),
        }
}

proof fn lemma_in_order(
    nodes: Seq<SvgNode>,
    stack: Seq<(u128, Option<usize>)>,
    seen: Seq<bool>,
    steps: Seq<ImportStep>,
)
    requires
        hangs_on(stack, steps),
        in_order(steps),
    ensures
        in_order(import_steps(nodes, stack, seen, steps)),
    decreases unmarked(seen), stack.len(),
{
    if stack.len() > 0 {
        let (id, parent) = stack.last();
        let rest = stack.drop_last();
        assert(hangs_on(rest, steps)) by {
            assert forall|i: int| 0 <= i < rest.len() implies match (#[trigger] rest[i]).1 {
                None => true,
                Some(p) => imports(steps, p, steps.len() as int),
            } by {
                assert(rest[i] == stack[i]);
            }
        }
        match node_index(nodes, id) {
            None => lemma_in_order(nodes, rest, seen, steps),
            Some(k) => if k >= seen.len() || seen[k as int] {
                lemma_in_order(nodes, rest, seen, steps);
            } else {
                lemma_mark(seen, k as int);
                let more = steps.push(ImportStep { index: k as usize, parent });
                let next = rest + hung(nodes[k as int].children@, Some(k as usize));
                assert forall|p: usize, n: int| n <= steps.len() && #[trigger] imports(steps, p, n)
                    implies imports(more, p, n) by {
                    let j = choose|j: int| 0 <= j < n && (#[trigger] steps[j]).index == p;
                    assert(more[j] == steps[j]);
                }
                assert(in_order(more)) by {
                    assert forall|i: int| 0 <= i < more.len() implies match (
                    #[trigger] more[i]).parent {
                        None => true,
                        Some(p) => imports(more, p, i),
                    } by {
                        if i < steps.len() {
                            assert(more[i] == steps[i]);
                        } else {
                            assert(stack[stack.len() - 1].1 == parent);
                        }
                    }
                }
                assert(hangs_on(next, more)) by {
                    assert forall|i: int| 0 <= i < next.len() implies match (#[trigger] next[i]).1 {
                        None => true,
                        Some(p) => imports(more, p, more.len() as int),
                    } by {
                        if i < rest.len() {
                            assert(next[i] == rest[i]);
                            if let Some(p) = rest[i].1 {
                                assert(imports(more, p, steps.len() as int));
                                let j = choose|j: int|
                                    0 <= j < steps.len() && (#[trigger] more[j]).index == p;
                                assert(more[j].index == p);
                            }
                        } else {
                            assert(next[i].1 == Some(k as usize));
                            assert(more[steps.len() as int].index == k as usize);
                        }
                    }
                }
                lemma_in_order(nodes, next, seen.update(k as int, true), more);
            },
        }
    }
}

/// Every imported node gets the map of the group that it was reached through
/// behind its own, and one that was reached through a layer gets the map into
/// the box: no ancestor is left out.
pub proof fn law_ancestors_are_kept(doc: SvgDocument, into_box: Affine, i: nat)
    requires
        i < import_order(doc).len(),
    ensures
        match import_order(doc)[i as int].parent {
            None => world(doc.nodes@, import_order(doc), into_box, i) == composed(
                into_box,
                own_map(doc.nodes@[import_order(doc)[i as int].index as int]),
            ),
            Some(p) => exists|j: nat|
                j < i && import_order(doc)[j as int].index == p && world(
                    doc.nodes@,
                    import_order(doc),
                    into_box,
                    i,
                ) == composed(
                    #[trigger] world(doc.nodes@, import_order(doc), into_box, j),
                    own_map(doc.nodes@[import_order(doc)[i as int].index as int]),
                ),
        },
{
    let steps = import_order(doc);
    let none = Seq::new(doc.nodes@.len(), |i: int| false);
    lemma_in_order(doc.nodes@, hung(doc.roots@, None), none, Seq::empty());
    assert(in_order(steps));
    if let Some(p) = steps[i as int].parent {
        assert(imports(steps, p, i as int));
        lemma_step_of(steps, p, i);
        let j = step_of(steps, p, i)->0;
        assert(world(doc.nodes@, steps, into_box, i) == composed(
            world(doc.nodes@, steps, into_box, j),
            own_map(doc.nodes@[steps[i as int].index as int]),
        ));
    }
}


/// The six numbers of a matrix are, in this order, where it brings the unit across, where it
/// brings the unit down, and where it brings the origin.
pub proof fn law_matrix_is_read_in_order(node: SvgNode)
    requires
        crate::svg::finite_matrix(node.matrix),
    ensures
        ({
            let m = own_map(node);
            let n = node.matrix@;
            let zero = (Double { bits: 0 });
            let still = Affine { e: zero, f: zero, ..m };
            let across = mapped(still, Point { x: whole(1), y: zero });
            let down = mapped(still, Point { x: zero, y: whole(1) });
            let origin = mapped(m, Point { x: zero, y: zero });
            &&& across.x.key() == n[0].key() && across.y.key() == n[1].key()
            &&& down.x.key() == n[2].key() && down.y.key() == n[3].key()
            &&& origin.x.key() == n[4].key() && origin.y.key() == n[5].key()
        }),
{
    let n = node.matrix@;
    assert(n[0].wf() && n[1].wf() && n[2].wf() && n[3].wf() && n[4].wf() && n[5].wf());
    law_mapped_units(own_map(node));
}

/// A picture that is not scaled is brought into its square as it is: its corner goes to the
/// place that is found for it, and its other points stay as far from that across and down.
pub proof fn law_picture_is_brought_into_its_square(
    doc: SvgDocument,
    x: Double,
    y: Double,
    size: Double,
    p: Point,
    j: nat,
)
    requires
        placement(doc.width, doc.height, x, y, size).0 == whole(1),
        is_plain(placement(doc.width, doc.height, x, y, size).1, j),
        is_plain(placement(doc.width, doc.height, x, y, size).2, j),
        is_plain(p.x, j),
        is_plain(p.y, j),
    ensures
        ({
            let q = mapped(box_map(doc, x, y, size), p);
            let (scale, left, top) = placement(doc.width, doc.height, x, y, size);
            &&& exact(q.x) == exact(left) + exact(p.x)
            &&& exact(q.y) == exact(top) + exact(p.y)
        }),
{
    let m = box_map(doc, x, y, size);
    lemma_moved_axis(m.a, m.c, p.x, p.y, m.e, j);
    lemma_moved_axis(m.d, m.b, p.y, p.x, m.f, j);
    lemma_sum_commutes(f_mul(m.d, p.y), f_mul(m.b, p.x));
}

} // verus!
