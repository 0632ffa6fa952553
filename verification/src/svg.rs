//! The local SVG files of tile icons: which file an icon URL names, which
//! documents are accepted, in which order their nodes are imported, and where a
//! picture goes in its box.
use crate::diagnostic::{diag, diagnosed, Diagnostic, DiagnosticView};
use crate::double::Double;
use crate::float::{
    divided, exact, f_add, f_div, f_min, f_mul, f_sub, half, halved, minimum, minus, plus, times,
    whole,
};
use crate::plan::is_finite;
use crate::steps::{is_plain, lemma_add, lemma_half, lemma_plain, lemma_sub, lemma_times_one};
use crate::text::{
    chars_of, contains, contains_str, ends_with, ends_with_str, eq_str, slice, starts_with,
    starts_with_str, text_of,
};
use vstd::prelude::*;

verus! {

pub const MAX_SVG_NODES: usize = 4096;

pub const MAX_SVG_DEPTH: usize = 64;

/// A name that is one path component and names an icon file.
pub open spec fn safe_basename(s: Seq<char>) -> bool {
    s.len() > 0 && !contains(s, "/"@) && !contains(s, "\\"@) && !contains(s, "?"@) && !contains(
        s,
        "#"@,
    ) && s != "."@ && s != ".."@ && ends_with(s, "-icon.svg"@)
}

/// The file name behind the allowlisted origin of an icon URL.
pub open spec fn basename_of(url: Seq<char>) -> Result<Seq<char>, DiagnosticView> {
    let origin = "https://people.bgcharlem.org/"@;
    if !starts_with(url, origin) {
        Err(
            diagnosed(
                "ASSET_URL_UNSUPPORTED"@,
                "icon URL must use the allowlisted people.bgcharlem.org origin"@,
                url,
            ),
        )
    } else if !safe_basename(url.skip(origin.len() as int)) {
        Err(
            diagnosed(
                "ASSET_BASENAME_UNSAFE"@,
                "icon URL path must be one literal *-icon.svg basename"@,
                url.skip(origin.len() as int),
            ),
        )
    } else {
        Ok(url.skip(origin.len() as int))
    }
}

/// The file name of an icon.
pub fn svg_asset_basename(icon_url: &str) -> (r: Result<String, Diagnostic>)
    ensures
        match r {
            Ok(name) => basename_of(icon_url@) == Ok::<Seq<char>, DiagnosticView>(name@),
            Err(d) => basename_of(icon_url@) == Err::<Seq<char>, DiagnosticView>(d@),
        },
{
    proof {
        reveal_strlit("https://people.bgcharlem.org/");
    }
    let url = chars_of(icon_url);
    if !starts_with_str(&url, "https://people.bgcharlem.org/") {
        return Err(
            diag(
                "ASSET_URL_UNSUPPORTED",
                "icon URL must use the allowlisted people.bgcharlem.org origin",
                icon_url,
            ),
        );
    }
    let name = slice(&url, 29, url.len());
    assert(name@ =~= url@.skip(29));
    let text = text_of(&name);
    if name.len() == 0 || contains_str(&name, "/") || contains_str(&name, "\\") || contains_str(
        &name,
        "?",
    ) || contains_str(&name, "#") || eq_str(&name, ".") || eq_str(&name, "..") || !ends_with_str(
        &name,
        "-icon.svg",
    ) {
        return Err(
            diag(
                "ASSET_BASENAME_UNSAFE",
                "icon URL path must be one literal *-icon.svg basename",
                text.as_str(),
            ),
        );
    }
    Ok(text)
}

/// A node of an imported document.
#[derive(Debug)]
pub struct SvgNode {
    pub id: u128,
    /// A path or a group.
    pub editable: bool,
    pub group: bool,
    /// The children of a group; empty for every other node.
    pub children: Vec<u128>,
    pub matrix: [Double; 6],
}

/// An imported document: its size, its nodes, and the roots of its layers from
/// back to front.
#[derive(Debug)]
pub struct SvgDocument {
    pub width: Double,
    pub height: Double,
    pub nodes: Vec<SvgNode>,
    pub roots: Vec<u128>,
}

/// The first node with the id `id`.
pub open spec fn node_index(nodes: Seq<SvgNode>, id: u128) -> Option<nat>
    decreases nodes.len(),
{
    if nodes.len() == 0 {
        None
    } else {
        match node_index(nodes.drop_last(), id) {
            Some(k) => Some(k),
            None => if nodes.last().id == id {
                Some((nodes.len() - 1) as nat)
            } else {
                None
            },
        }
    }
}

/// Looks a node up by its id.
pub fn find_node(nodes: &Vec<SvgNode>, id: u128) -> (r: Option<usize>)
    ensures
        match r {
            Some(k) => node_index(nodes@, id) == Some(k as nat) && k < nodes.len(),
            None => node_index(nodes@, id) is None,
        },
{
    let mut i: usize = 0;
    assert(nodes@.take(0) =~= Seq::<SvgNode>::empty());
    while i < nodes.len()
        invariant
            i <= nodes.len(),
            node_index(nodes@.take(i as int), id) is None,
        decreases nodes.len() - i,
    {
        proof {
            assert(nodes@.take(i + 1).drop_last() =~= nodes@.take(i as int));
            assert(nodes@.take(i + 1).last() == nodes@[i as int]);
        }
        if nodes[i].id == id {
            proof {
                lemma_index_take(nodes@, id, i + 1);
            }
            return Some(i);
        }
        i += 1;
    }
    assert(nodes@.take(nodes@.len() as int) =~= nodes@);
    None
}

proof fn lemma_index_take(nodes: Seq<SvgNode>, id: u128, i: int)
    requires
        0 <= i <= nodes.len(),
        node_index(nodes.take(i), id) is Some,
    ensures
        node_index(nodes, id) == node_index(nodes.take(i), id),
    decreases nodes.len() - i,
{
    if i == nodes.len() {
        assert(nodes.take(i) =~= nodes);
    } else {
        assert(nodes.take(i + 1).drop_last() =~= nodes.take(i));
        lemma_index_take(nodes, id, i + 1);
    }
}

/// How many are not marked.
pub open spec fn unmarked(marks: Seq<bool>) -> nat
    decreases marks.len(),
{
    if marks.len() == 0 {
        0
    } else {
        unmarked(marks.drop_last()) + if marks.last() {
            0nat
        } else {
            1
        }
    }
}

/// A new mark leaves fewer unmarked.
pub proof fn lemma_mark(marks: Seq<bool>, k: int)
    requires
        0 <= k < marks.len(),
        !marks[k],
    ensures
        unmarked(marks.update(k, true)) == unmarked(marks) - 1,
    decreases marks.len(),
{
    let m = marks.update(k, true);
    if k == marks.len() - 1 {
        assert(m.drop_last() =~= marks.drop_last());
    } else {
        assert(m.drop_last() =~= marks.drop_last().update(k, true));
        lemma_mark(marks.drop_last(), k);
    }
}

fn no_marks(n: usize) -> (r: Vec<bool>)
    ensures
        r@ == Seq::new(n as nat, |i: int| false),
{
    let mut r: Vec<bool> = Vec::new();
    let mut i: usize = 0;
    while i < n
        invariant
            i <= n,
            r@ == Seq::new(i as nat, |i: int| false),
        decreases n - i,
    {
        r.push(false);
        i += 1;
        assert(r@ =~= Seq::new(i as nat, |i: int| false));
    }
    r
}

/// Nodes that wait for a visit, each one level below `depth`.
pub open spec fn below(children: Seq<u128>, depth: nat) -> Seq<(u128, nat)> {
    children.map_values(|c: u128| (c, depth + 1))
}

/// A walk that takes the last waiting node first, and waits for the children of
/// a group after its first visit, meets a node below the deepest level.
pub open spec fn too_deep(nodes: Seq<SvgNode>, pending: Seq<(u128, nat)>, seen: Seq<bool>) -> bool
    decreases unmarked(seen), pending.len(),
{
    if pending.len() == 0 {
        false
    } else {
        let (id, depth) = pending.last();
        let rest = pending.drop_last();
        if depth > MAX_SVG_DEPTH {
            true
        } else {
            match node_index(nodes, id) {
                None => too_deep(nodes, rest, seen),
                Some(k) => if k >= seen.len() || seen[k as int] {
                    too_deep(nodes, rest, seen)
                } else {
                    proof {
                        lemma_mark(seen, k as int);
                    }
                    too_deep(
                        nodes,
                        rest + below(nodes[k as int].children@, depth),
                        seen.update(k as int, true),
                    )
                },
            }
        }
    }
}

pub open spec fn finite_matrix(m: [Double; 6]) -> bool {
    forall|i: int| 0 <= i < 6 ==> (#[trigger] m@[i]).wf()
}

/// Why a document is refused, in the order in which it is asked.
pub open spec fn svg_error(doc: SvgDocument, value: Seq<char>) -> Option<DiagnosticView> {
    let nodes = doc.nodes@;
    let none = Seq::new(nodes.len(), |i: int| false);
    if exists|i: int| 0 <= i < nodes.len() && !(#[trigger] nodes[i]).editable {
        Some(
            diagnosed(
                "ASSET_SVG_UNSUPPORTED"@,
                "local SVG must contain editable path/group geometry only"@,
                value,
            ),
        )
    } else if nodes.len() > MAX_SVG_NODES {
        Some(diagnosed("ASSET_SVG_LIMIT"@, "SVG contains more than 4096 nodes"@, value))
    } else if exists|i: int| 0 <= i < nodes.len() && !finite_matrix((#[trigger] nodes[i]).matrix) {
        Some(
            diagnosed(
                "ASSET_SVG_NONFINITE"@,
                "SVG geometry contains a non-finite transform"@,
                value,
            ),
        )
    } else if too_deep(nodes, below(doc.roots@, 0), none) {
        Some(diagnosed("ASSET_SVG_DEPTH"@, "SVG nesting exceeds 64 levels"@, value))
    } else if !doc.width.wf() || !doc.height.wf() || doc.width.key() <= 0 || doc.height.key() <= 0 {
        Some(
            diagnosed(
                "ASSET_SVG_VIEWPORT"@,
                "local SVG must have a finite positive viewport"@,
                value,
            ),
        )
    } else {
        None
    }
}

pub open spec fn waiting(v: Seq<(u128, usize)>) -> Seq<(u128, nat)> {
    v.map_values(|p: (u128, usize)| (p.0, p.1 as nat))
}

fn push_below(pending: &mut Vec<(u128, usize)>, children: &Vec<u128>, depth: usize)
    requires
        depth < usize::MAX,
    ensures
        waiting(final(pending)@) == waiting(old(pending)@) + below(children@, depth as nat),
{
    let ghost start = waiting(pending@);
    let ghost all = below(children@, depth as nat);
    let mut i: usize = 0;
    while i < children.len()
        invariant
            i <= children.len(),
            depth < usize::MAX,
            all == below(children@, depth as nat),
            waiting(pending@) == start + all.take(i as int),
        decreases children.len() - i,
    {
        let ghost before = pending@;
        let entry = (children[i], depth + 1);
        pending.push(entry);
        proof {
            assert(waiting(before.push(entry)) =~= waiting(before).push(
                (entry.0, entry.1 as nat),
            ));
            assert(all.take(i + 1) =~= all.take(i as int).push((entry.0, entry.1 as nat)));
        }
        i += 1;
    }
    assert(all.take(all.len() as int) =~= all);
}

fn is_too_deep(doc: &SvgDocument) -> (r: bool)
    ensures
        r == too_deep(
            doc.nodes@,
            below(doc.roots@, 0),
            Seq::new(doc.nodes@.len(), |i: int| false),
        ),
{
    let mut pending: Vec<(u128, usize)> = Vec::new();
    assert(waiting(pending@) =~= Seq::<(u128, nat)>::empty());
    push_below(&mut pending, &doc.roots, 0);
    let mut seen = no_marks(doc.nodes.len());
    let ghost goal = too_deep(
        doc.nodes@,
        below(doc.roots@, 0),
        Seq::new(doc.nodes@.len(), |i: int| false),
    );
    while pending.len() > 0
        invariant
            seen.len() == doc.nodes.len(),
            goal == too_deep(doc.nodes@, waiting(pending@), seen@),
            goal == too_deep(
                doc.nodes@,
                below(doc.roots@, 0),
                Seq::new(doc.nodes@.len(), |i: int| false),
            ),
        decreases unmarked(seen@), pending.len(),
    {
        let ghost before = pending@;
        let (id, depth) = pending[pending.len() - 1];
        pending.pop();
        proof {
            assert(waiting(before).last() == (id, depth as nat));
            assert(waiting(before).drop_last() =~= waiting(pending@));
        }
        if depth > MAX_SVG_DEPTH {
            return true;
        }
        if let Some(k) = find_node(&doc.nodes, id) {
            if !seen[k] {
                proof {
                    lemma_mark(seen@, k as int);
                }
                seen.set(k, true);
                push_below(&mut pending, &doc.nodes[k].children, depth);
            }
        }
    }
    false
}

fn has_finite_matrix(m: &[Double; 6]) -> (r: bool)
    ensures
        r == finite_matrix(*m),
{
    let mut i: usize = 0;
    while i < 6
        invariant
            i <= 6,
            forall|j: int| 0 <= j < i ==> (#[trigger] m@[j]).wf(),
        decreases 6 - i,
    {
        if !is_finite(m[i]) {
            assert(!m@[i as int].wf());
            return false;
        }
        i += 1;
    }
    true
}

fn all_editable(nodes: &Vec<SvgNode>) -> (r: bool)
    ensures
        r == !(exists|i: int| 0 <= i < nodes@.len() && !(#[trigger] nodes@[i]).editable),
{
    let mut i: usize = 0;
    while i < nodes.len()
        invariant
            i <= nodes.len(),
            forall|j: int| 0 <= j < i ==> (#[trigger] nodes@[j]).editable,
        decreases nodes.len() - i,
    {
        if !nodes[i].editable {
            assert(!nodes@[i as int].editable);
            return false;
        }
        i += 1;
    }
    true
}

fn all_finite(nodes: &Vec<SvgNode>) -> (r: bool)
    ensures
        r == !(exists|i: int|
            0 <= i < nodes@.len() && !finite_matrix((#[trigger] nodes@[i]).matrix)),
{
    let mut i: usize = 0;
    while i < nodes.len()
        invariant
            i <= nodes.len(),
            forall|j: int| 0 <= j < i ==> finite_matrix((#[trigger] nodes@[j]).matrix),
        decreases nodes.len() - i,
    {
        if !has_finite_matrix(&nodes[i].matrix) {
            assert(!finite_matrix(nodes@[i as int].matrix));
            return false;
        }
        i += 1;
    }
    true
}

/// Whether an imported document is accepted. `value` names its file.
pub fn validate_svg_document(document: &SvgDocument, value: &str) -> (r: Result<(), Diagnostic>)
    ensures
        match r {
            Ok(_) => svg_error(*document, value@) is None,
            Err(d) => svg_error(*document, value@) == Some(d@),
        },
{
    let zero = Double { bits: 0 };
    if !all_editable(&document.nodes) {
        Err(
            diag(
                "ASSET_SVG_UNSUPPORTED",
                "local SVG must contain editable path/group geometry only",
                value,
            ),
        )
    } else if document.nodes.len() > MAX_SVG_NODES {
        Err(diag("ASSET_SVG_LIMIT", "SVG contains more than 4096 nodes", value))
    } else if !all_finite(&document.nodes) {
        Err(
            diag(
                "ASSET_SVG_NONFINITE",
                "SVG geometry contains a non-finite transform",
                value,
            ),
        )
    } else if is_too_deep(document) {
        Err(diag("ASSET_SVG_DEPTH", "SVG nesting exceeds 64 levels", value))
    } else if !is_finite(document.width) || !is_finite(document.height) || document.width.at_most(
        zero,
    ) || document.height.at_most(zero) {
        Err(
            diag(
                "ASSET_SVG_VIEWPORT",
                "local SVG must have a finite positive viewport",
                value,
            ),
        )
    } else {
        Ok(())
    }
}

/// A node to import and the node that it hangs on.
#[derive(Debug, Clone, Copy, PartialEq, Eq, Structural)]
pub struct ImportStep {
    pub index: usize,
    pub parent: Option<usize>,
}

/// Nodes that wait below `parent`, the first on top.
pub open spec fn hung(children: Seq<u128>, parent: Option<usize>) -> Seq<(u128, Option<usize>)> {
    children.reverse().map_values(|c: u128| (c, parent))
}

/// The steps from `steps` on: the top of the stack comes next, its children come
/// before what lies below it, and no node comes twice.
pub open spec fn import_steps(
    nodes: Seq<SvgNode>,
    stack: Seq<(u128, Option<usize>)>,
    seen: Seq<bool>,
    steps: Seq<ImportStep>,
) -> Seq<ImportStep>
    decreases unmarked(seen), stack.len(),
{
    if stack.len() == 0 {
        steps
    } else {
        let (id, parent) = stack.last();
        let rest = stack.drop_last();
        match node_index(nodes, id) {
            None => import_steps(nodes, rest, seen, steps),
            Some(k) => if k >= seen.len() || seen[k as int] {
                import_steps(nodes, rest, seen, steps)
            } else {
                proof {
                    lemma_mark(seen, k as int);
                }
                import_steps(
                    nodes,
                    rest + hung(nodes[k as int].children@, Some(k as usize)),
                    seen.update(k as int, true),
                    steps.push(ImportStep { index: k as usize, parent }),
                )
            },
        }
    }
}

/// The order in which the nodes of a document are imported: every reachable node
/// once, a group before its children.
pub open spec fn import_order(doc: SvgDocument) -> Seq<ImportStep> {
    import_steps(
        doc.nodes@,
        hung(doc.roots@, None),
        Seq::new(doc.nodes@.len(), |i: int| false),
        Seq::empty(),
    )
}

fn push_hung(stack: &mut Vec<(u128, Option<usize>)>, children: &Vec<u128>, parent: Option<usize>)
    ensures
        final(stack)@ == old(stack)@ + hung(children@, parent),
{
    let ghost start = stack@;
    let ghost all = hung(children@, parent);
    let mut i: usize = children.len();
    while i > 0
        invariant
            i <= children.len(),
            all == hung(children@, parent),
            stack@ == start + all.take(children.len() - i),
        decreases i,
    {
        i -= 1;
        stack.push((children[i], parent));
        assert(all[children.len() - i - 1] == (children@[i as int], parent));
        assert(all.take(children.len() - i) =~= all.take(children.len() - i - 1).push(
            (children@[i as int], parent),
        ));
    }
    assert(all.take(all.len() as int) =~= all);
}

/// The order in which the nodes of a document are imported.
pub fn svg_import_order(doc: &SvgDocument) -> (r: Vec<ImportStep>)
    ensures
        r@ == import_order(*doc),
{
    let mut stack: Vec<(u128, Option<usize>)> = Vec::new();
    push_hung(&mut stack, &doc.roots, None);
    assert(stack@ =~= hung(doc.roots@, None));
    let mut seen = no_marks(doc.nodes.len());
    let mut steps: Vec<ImportStep> = Vec::new();
    while stack.len() > 0
        invariant
            seen.len() == doc.nodes.len(),
            import_order(*doc) == import_steps(doc.nodes@, stack@, seen@, steps@),
        decreases unmarked(seen@), stack.len(),
    {
        let ghost before = stack@;
        let (id, parent) = stack[stack.len() - 1];
        stack.pop();
        assert(before.drop_last() =~= stack@);
        if let Some(k) = find_node(&doc.nodes, id) {
            if !seen[k] {
                proof {
                    lemma_mark(seen@, k as int);
                }
                seen.set(k, true);
                steps.push(ImportStep { index: k, parent });
                push_hung(&mut stack, &doc.nodes[k].children, Some(k));
            }
        }
    }
    steps
}

/// `steps` names nodes of the document, each once, and exactly the marked ones.
pub open spec fn marked_steps(steps: Seq<ImportStep>, seen: Seq<bool>) -> bool {
    &&& forall|i: int|
        0 <= i < steps.len() ==> (#[trigger] steps[i]).index < seen.len()
            && seen[steps[i].index as int]
    &&& forall|i: int, j: int|
        0 <= i < j < steps.len() ==> (#[trigger] steps[i]).index != (#[trigger] steps[j]).index
}

proof fn lemma_steps_once(
    nodes: Seq<SvgNode>,
    stack: Seq<(u128, Option<usize>)>,
    seen: Seq<bool>,
    steps: Seq<ImportStep>,
)
    requires
        marked_steps(steps, seen),
        seen.len() == nodes.len(),
        nodes.len() <= usize::MAX,
    ensures
        exists|s: Seq<bool>|
            s.len() == nodes.len() && marked_steps(import_steps(nodes, stack, seen, steps), s),
    decreases unmarked(seen), stack.len(),
{
    if stack.len() == 0 {
        assert(marked_steps(import_steps(nodes, stack, seen, steps), seen));
    } else {
        let (id, parent) = stack.last();
        let rest = stack.drop_last();
        match node_index(nodes, id) {
            None => lemma_steps_once(nodes, rest, seen, steps),
            Some(k) => if k >= seen.len() || seen[k as int] {
                lemma_steps_once(nodes, rest, seen, steps);
            } else {
                lemma_mark(seen, k as int);
                let now = seen.update(k as int, true);
                let more = steps.push(ImportStep { index: k as usize, parent });
                assert(marked_steps(more, now)) by {
                    assert forall|i: int| 0 <= i < more.len() implies (#[trigger] more[i]).index
                        < now.len() && now[more[i].index as int] by {
                        if i < steps.len() {
                            assert(more[i] == steps[i]);
                        }
                    }
                    assert forall|i: int, j: int| 0 <= i < j < more.len() implies (
                    #[trigger] more[i]).index != (#[trigger] more[j]).index by {
                        assert(more[i] == steps[i]);
                        if j < steps.len() {
                            assert(more[j] == steps[j]);
                        }
                    }
                }
                lemma_steps_once(
                    nodes,
                    rest + hung(nodes[k as int].children@, Some(k as usize)),
                    now,
                    more,
                );
            },
        }
    }
}

/// No node of a document is imported twice, however its groups refer to each
/// other, and only nodes of the document are imported.
pub proof fn law_imported_once(doc: SvgDocument)
    ensures
        forall|i: int|
            0 <= i < import_order(doc).len() ==> (#[trigger] import_order(doc)[i]).index
                < doc.nodes@.len(),
        forall|i: int, j: int|
            0 <= i < j < import_order(doc).len() ==> (#[trigger] import_order(doc)[i]).index != (
            #[trigger] import_order(doc)[j]).index,
{
    let none = Seq::new(doc.nodes@.len(), |i: int| false);
    let no_steps = Seq::<ImportStep>::empty();
    assert(doc.nodes.len() == doc.nodes@.len());
    lemma_steps_once(doc.nodes@, hung(doc.roots@, None), none, no_steps);
    let s = choose|s: Seq<bool>|
        s.len() == doc.nodes@.len() && marked_steps(import_order(doc), s);
    assert(marked_steps(import_order(doc), s));
}

/// How a picture is scaled and moved: it fits a square box of the side `size` at
/// (`x`, `y`) and is centred in it.
pub open spec fn placement(
    width: Double,
    height: Double,
    x: Double,
    y: Double,
    size: Double,
) -> (Double, Double, Double) {
    let scale = f_min(f_div(size, width), f_div(size, height));
    (
        scale,
        f_add(x, half(f_sub(size, f_mul(width, scale)))),
        f_add(y, half(f_sub(size, f_mul(height, scale)))),
    )
}

/// The scale and the offset of a picture in its box.
pub fn place_picture(
    width: Double,
    height: Double,
    x: Double,
    y: Double,
    size: Double,
) -> (r: (Double, Double, Double))
    requires
        width.wf(),
        height.wf(),
        width.key() > 0,
        height.key() > 0,
    ensures
        r == placement(width, height, x, y, size),
{
    let scale = minimum(divided(size, width), divided(size, height));
    (
        scale,
        plus(x, halved(minus(size, times(width, scale)))),
        plus(y, halved(minus(size, times(height, scale)))),
    )
}


/// A picture is placed in the middle of its square, neither wider nor higher than it:
/// scaled by the smaller of the two factors that fill it, with the same room left and right,
/// and above and below. Exchanging across and down everywhere exchanges them in the result.
pub proof fn law_picture_is_placed_in_the_middle(
    width: Double,
    height: Double,
    x: Double,
    y: Double,
    size: Double,
    j: nat,
)
    requires
        f_div(size, width).wf(),
        f_div(size, height).wf(),
        f_div(size, width).key() > 0,
        f_div(size, height).key() > 0,
        is_plain(width, j),
        is_plain(height, j),
        is_plain(x, j),
        is_plain(y, j),
        is_plain(size, j),
    ensures
        ({
            let (scale, left, top) = placement(width, height, x, y, size);
            let (other, down, across) = placement(height, width, y, x, size);
            &&& scale.key() <= f_div(size, width).key()
            &&& scale.key() <= f_div(size, height).key()
            &&& scale == f_div(size, width) || scale == f_div(size, height)
            &&& other == scale && across == left && down == top
            &&& scale == whole(1) ==> exact(left) - exact(x) == exact(x) + exact(size) - exact(left)
                - exact(width)
            &&& scale == whole(1) ==> exact(top) - exact(y) == exact(y) + exact(size) - exact(top)
                - exact(height)
        }),
{
    let (scale, left, top) = placement(width, height, x, y, size);
    if scale == whole(1) {
        lemma_times_one(width);
        lemma_times_one(height);
        lemma_in_the_middle(x, size, width, j);
        lemma_in_the_middle(y, size, height, j);
    }
}

proof fn lemma_in_the_middle(x: Double, size: Double, width: Double, j: nat)
    requires
        is_plain(x, j),
        is_plain(size, j),
        is_plain(width, j),
    ensures
        2 * exact(f_add(x, half(f_sub(size, width)))) == 2 * exact(x) + exact(size) - exact(width),
{
    let h = (j - 1) as nat;
    lemma_plain(x, j);
    lemma_plain(size, j);
    lemma_plain(width, j);
    lemma_sub(size, width, j, 0x4000_0000, 0x4000_0000);
    lemma_half(f_sub(size, width), j, 0x8000_0000);
    lemma_add(x, half(f_sub(size, width)), h, 0x8000_0000, 0x8000_0000);
}

} // verus!
