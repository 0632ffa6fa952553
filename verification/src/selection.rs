//! Finding nodes and choosing the selection.
use crate::bezier::{world_bounds, world_box, Bounds, Point};
use crate::double::Double;
use crate::float::{
    absolute, at_most, exact, f_abs, f_add, f_at_most, f_less, f_narrow, f_sub, half, halved,
    lemma_self_difference, less, minus, narrowed, plus,
};
use crate::plan::holds;
use crate::scene::{
    around_id, copy_ids, count_text, counted, find_node, has_node, id_text, is_node_at, kind_name,
    kind_text, named_id, parse_uuid, parsed_uuid, push_id, resolve_node_id, Node, NodeKind,
};
use crate::steps::{is_plain, lemma_add, lemma_half, lemma_order, lemma_plain, lemma_short_nothing};
use crate::text::{
    chars_of, contains, contains_str, decimal_text, holds_text, number_text, push_all, push_str,
    same_text, text_of, texts,
};
use vstd::prelude::*;

verus! {

/// The text that `str::to_lowercase` gives.
pub uninterp spec fn lowered(text: Seq<char>) -> Seq<char>;

/// `str::to_lowercase`: the text in lower case, by the rules of Unicode. The rules
/// are not stated.
#[verifier::external_body]
pub(crate) fn lowercase(text: &str) -> (r: String)
    ensures
        r@ == lowered(text@),
{
    text.to_lowercase()
}

/// A region of the canvas.
#[derive(Debug, Clone, Copy, PartialEq, Eq, Structural)]
pub struct Region {
    pub x: Double,
    pub y: Double,
    pub width: Double,
    pub height: Double,
}

/// What nodes are sought. What is absent matches every node.
#[derive(Debug)]
pub struct FindNodesArgs {
    pub limit: Option<usize>,
    pub visible_only: bool,
    pub layer_id: Option<u128>,
    pub node_type: Option<String>,
    /// All of these tags.
    pub tags: Option<Vec<String>>,
    /// Any of these tags, unless there are none.
    pub tags_any: Option<Vec<String>>,
    /// Whatever the case.
    pub name_contains: Option<String>,
    /// Touching or overlapping this region. Nodes without bounds are everywhere.
    pub in_region: Option<Region>,
}

/// The boxes do not touch.
pub open spec fn apart(w: Bounds, r: Region) -> bool {
    f_less(w.x1, r.x) || f_less(f_add(r.x, r.width), w.x0) || f_less(w.y1, r.y) || f_less(
        f_add(r.y, r.height),
        w.y0,
    )
}

/// The node has the tag.
pub open spec fn has_tag(node: Node, tag: Seq<char>) -> bool {
    texts(node.tags@).contains(tag)
}

/// The node is one of those that are sought.
pub open spec fn is_sought(node: Node, args: FindNodesArgs) -> bool {
    &&& args.visible_only ==> node.visible
    &&& args.layer_id matches Some(l) ==> node.layer == l
    &&& args.node_type matches Some(t) ==> kind_text(node.kind) == t@
    &&& args.tags matches Some(ts) ==> forall|i: int|
        0 <= i < ts.len() ==> has_tag(node, (#[trigger] ts@[i])@)
    &&& args.tags_any matches Some(ts) ==> ts.len() == 0 || exists|i: int|
        0 <= i < ts.len() && has_tag(node, (#[trigger] ts@[i])@)
    &&& args.name_contains matches Some(n) ==> contains(lowered(node.name@), lowered(n@))
    &&& args.in_region matches Some(r) ==> (node.bounds matches Some(b) ==> !apart(
        world_bounds(b, node.transform),
        r,
    ))
}

/// The positions of the sought nodes among the first `n`.
pub open spec fn sought_positions(nodes: Seq<Node>, args: FindNodesArgs, n: nat) -> Seq<usize>
    decreases n,
{
    if n == 0 {
        Seq::empty()
    } else {
        let before = sought_positions(nodes, args, (n - 1) as nat);
        if is_sought(nodes[n - 1], args) {
            before.push((n - 1) as usize)
        } else {
            before
        }
    }
}

/// How many nodes are reported at most: 200 unless the caller says else, and at
/// least one.
pub open spec fn report_limit(args: FindNodesArgs) -> nat {
    match args.limit {
        None => 200,
        Some(n) => if n < 1 {
            1
        } else {
            n as nat
        },
    }
}

/// What was found: the positions of the nodes, and whether the search stopped at
/// the limit.
#[derive(Debug)]
pub struct FoundNodes {
    pub positions: Vec<usize>,
    pub truncated: bool,
    pub message: String,
}

fn has_all_tags(node: &Node, tags: &Vec<String>) -> (r: bool)
    ensures
        r == forall|i: int| 0 <= i < tags.len() ==> has_tag(*node, (#[trigger] tags@[i])@),
{
    let mut i: usize = 0;
    while i < tags.len()
        invariant
            i <= tags.len(),
            forall|k: int| 0 <= k < i ==> has_tag(*node, (#[trigger] tags@[k])@),
        decreases tags.len() - i,
    {
        if !holds_text(&node.tags, tags[i].as_str()) {
            assert(!has_tag(*node, tags@[i as int]@));
            return false;
        }
        i += 1;
    }
    true
}

fn has_any_tag(node: &Node, tags: &Vec<String>) -> (r: bool)
    ensures
        r == exists|i: int| 0 <= i < tags.len() && has_tag(*node, (#[trigger] tags@[i])@),
{
    let mut i: usize = 0;
    while i < tags.len()
        invariant
            i <= tags.len(),
            forall|k: int| 0 <= k < i ==> !has_tag(*node, (#[trigger] tags@[k])@),
        decreases tags.len() - i,
    {
        if holds_text(&node.tags, tags[i].as_str()) {
            assert(has_tag(*node, tags@[i as int]@));
            return true;
        }
        i += 1;
    }
    false
}

fn touches(node: &Node, r: &Region) -> (t: bool)
    ensures
        t == (node.bounds matches Some(b) ==> !apart(world_bounds(b, node.transform), *r)),
{
    match &node.bounds {
        None => true,
        Some(b) => {
            let w = world_box(b, &node.transform);
            !(less(w.x1, r.x) || less(plus(r.x, r.width), w.x0) || less(w.y1, r.y) || less(
                plus(r.y, r.height),
                w.y0,
            ))
        },
    }
}

fn matches_request(node: &Node, args: &FindNodesArgs, needle: &Option<String>) -> (r: bool)
    requires
        match args.name_contains {
            Some(n) => needle matches Some(s) && s@ == lowered(n@),
            None => needle is None,
        },
    ensures
        r == is_sought(*node, *args),
{
    if args.visible_only && !node.visible {
        return false;
    }
    if let Some(l) = args.layer_id {
        if node.layer != l {
            return false;
        }
    }
    if let Some(t) = &args.node_type {
        if !same_text(kind_name(node.kind), t.as_str()) {
            return false;
        }
    }
    if let Some(ts) = &args.tags {
        if !has_all_tags(node, ts) {
            return false;
        }
    }
    if let Some(ts) = &args.tags_any {
        if ts.len() > 0 && !has_any_tag(node, ts) {
            return false;
        }
    }
    if let Some(n) = needle {
        let name = lowercase(node.name.as_str());
        if !contains_str(&chars_of(name.as_str()), n.as_str()) {
            return false;
        }
    }
    if let Some(r) = &args.in_region {
        if !touches(node, r) {
            return false;
        }
    }
    true
}

proof fn lemma_sought_grow(nodes: Seq<Node>, args: FindNodesArgs, i: nat, n: nat)
    requires
        i <= n,
    ensures
        sought_positions(nodes, args, i).is_prefix_of(sought_positions(nodes, args, n)),
    decreases n,
{
    if i < n {
        lemma_sought_grow(nodes, args, i, (n - 1) as nat);
    }
}

/// Finds nodes.
pub fn find_nodes(nodes: &Vec<Node>, args: &FindNodesArgs) -> (r: FoundNodes)
    ensures
        ({
            let all = sought_positions(nodes@, *args, nodes@.len());
            let limit = report_limit(*args);
            &&& r.truncated == (all.len() >= limit)
            &&& r.positions@ == if all.len() >= limit {
                all.take(limit as int)
            } else {
                all
            }
            &&& r.message@ == counted(
                "Found "@,
                r.positions@.len(),
                if r.truncated {
                    " node(s) (results truncated)"@
                } else {
                    " node(s)"@
                },
            )
        }),
{
    let limit: usize = match args.limit {
        None => 200,
        Some(n) => if n < 1 {
            1
        } else {
            n
        },
    };
    let needle = match &args.name_contains {
        Some(n) => Some(lowercase(n.as_str())),
        None => None,
    };
    let ghost all = sought_positions(nodes@, *args, nodes@.len());
    let mut positions: Vec<usize> = Vec::new();
    let mut i: usize = 0;
    while i < nodes.len()
        invariant
            i <= nodes.len(),
            limit == report_limit(*args),
            all == sought_positions(nodes@, *args, nodes@.len()),
            match args.name_contains {
                Some(n) => needle matches Some(s) && s@ == lowered(n@),
                None => needle is None,
            },
            positions@ == sought_positions(nodes@, *args, i as nat),
            positions.len() < limit,
        decreases nodes.len() - i,
    {
        if matches_request(&nodes[i], args, &needle) {
            positions.push(i);
            if positions.len() >= limit {
                proof {
                    lemma_sought_grow(nodes@, *args, (i + 1) as nat, nodes@.len());
                    assert(positions@ == sought_positions(nodes@, *args, (i + 1) as nat));
                    assert(positions@ =~= all.take(limit as int));
                }
                let n: usize = positions.len();
                let message = count_text("Found ", n, " node(s) (results truncated)");
                return FoundNodes { positions, truncated: true, message };
            }
        }
        i += 1;
    }
    let n: usize = positions.len();
    let message = count_text("Found ", n, " node(s)");
    FoundNodes { positions, truncated: false, message }
}

/// A search finds exactly the nodes that are sought, each once and in their order.
pub proof fn law_found_are_sought(nodes: Seq<Node>, args: FindNodesArgs, n: nat)
    requires
        n <= nodes.len(),
        nodes.len() <= usize::MAX,
    ensures
        forall|i: int|
            0 <= i < sought_positions(nodes, args, n).len() ==> (#[trigger] sought_positions(
                nodes,
                args,
                n,
            )[i]) < n && is_sought(nodes[sought_positions(nodes, args, n)[i] as int], args),
        forall|i: int, j: int|
            0 <= i < j < sought_positions(nodes, args, n).len() ==> (#[trigger] sought_positions(
                nodes,
                args,
                n,
            )[i]) < (#[trigger] sought_positions(nodes, args, n)[j]),
        forall|k: int|
            0 <= k < n && is_sought(nodes[k], args) ==> #[trigger] sought_positions(
                nodes,
                args,
                n,
            ).contains(k as usize),
    decreases n,
{
    if n > 0 {
        let m = (n - 1) as nat;
        law_found_are_sought(nodes, args, m);
        let before = sought_positions(nodes, args, m);
        let all = sought_positions(nodes, args, n);
        assert forall|k: int| 0 <= k < n && is_sought(nodes[k], args) implies #[trigger] all.contains(
            k as usize,
        ) by {
            if k == n - 1 {
                assert(all[all.len() - 1] == k as usize);
            } else {
                assert(before.contains(k as usize));
                let i = choose|i: int| 0 <= i < before.len() && before[i] == k as usize;
                assert(all[i] == k as usize);
            }
        }
    }
}

/// The selection with one more node.
pub open spec fn with_node(selection: Seq<u128>, id: u128) -> Seq<u128> {
    if selection.contains(id) {
        selection
    } else {
        selection.push(id)
    }
}

/// The selection with more nodes.
pub open spec fn with_nodes(selection: Seq<u128>, ids: Seq<u128>) -> Seq<u128>
    decreases ids.len(),
{
    if ids.len() == 0 {
        selection
    } else {
        with_node(with_nodes(selection, ids.drop_last()), ids.last())
    }
}

/// No node is selected twice.
pub open spec fn distinct(ids: Seq<u128>) -> bool {
    forall|i: int, j: int| 0 <= i < j < ids.len() ==> #[trigger] ids[i] != #[trigger] ids[j]
}

/// Adding nodes keeps every selected node, adds those that are given and no
/// other, and selects none twice.
pub proof fn law_selection_grows(selection: Seq<u128>, ids: Seq<u128>)
    requires
        distinct(selection),
    ensures
        distinct(with_nodes(selection, ids)),
        forall|id: u128| #[trigger]
            with_nodes(selection, ids).contains(id) <==> selection.contains(id) || ids.contains(id),
    decreases ids.len(),
{
    if ids.len() > 0 {
        let before = with_nodes(selection, ids.drop_last());
        law_selection_grows(selection, ids.drop_last());
        let x = ids.last();
        let after = with_node(before, x);
        assert forall|id: u128| #[trigger] after.contains(id) <==> selection.contains(id)
            || ids.contains(id) by {
            if before.contains(id) {
                let k = choose|k: int| 0 <= k < before.len() && before[k] == id;
                assert(after[k] == id);
            }
            if ids.drop_last().contains(id) {
                let k = choose|k: int| 0 <= k < ids.len() - 1 && ids.drop_last()[k] == id;
                assert(ids[k] == id);
            }
            if id == x {
                assert(ids[ids.len() - 1] == x);
                if !before.contains(x) {
                    assert(after[after.len() - 1] == x);
                }
            }
            if ids.contains(id) && id != x {
                let k = choose|k: int| 0 <= k < ids.len() && ids[k] == id;
                assert(ids.drop_last()[k] == id);
            }
            if after.contains(id) && id != x {
                let k = choose|k: int| 0 <= k < after.len() && after[k] == id;
                assert(before[k] == id);
            }
        }
    } else {
        assert forall|id: u128| !ids.contains(id) by {}
    }
}

/// Adds a node to the selection.
pub fn add_to_selection(selection: &mut Vec<u128>, id: u128)
    ensures
        final(selection)@ == with_node(old(selection)@, id),
{
    if !holds(selection, id) {
        selection.push(id);
    }
}

/// Adds nodes to the selection.
pub fn add_all_to_selection(selection: &mut Vec<u128>, ids: &Vec<u128>)
    ensures
        final(selection)@ == with_nodes(old(selection)@, ids@),
{
    let mut i: usize = 0;
    assert(ids@.take(0) =~= Seq::<u128>::empty());
    while i < ids.len()
        invariant
            i <= ids.len(),
            selection@ == with_nodes(old(selection)@, ids@.take(i as int)),
        decreases ids.len() - i,
    {
        proof {
            assert(ids@.take(i + 1).drop_last() =~= ids@.take(i as int));
            assert(ids@.take(i + 1).last() == ids@[i as int]);
        }
        add_to_selection(selection, ids[i]);
        i += 1;
    }
    assert(ids@.take(ids@.len() as int) =~= ids@);
}

/// What a choice starts from: the selection where it is added to, else nothing.
pub open spec fn base_selection(selection: Seq<u128>, additive: bool) -> Seq<u128> {
    if additive {
        selection
    } else {
        Seq::empty()
    }
}

fn start_selection(selection: &Vec<u128>, additive: bool) -> (r: Vec<u128>)
    ensures
        r@ == base_selection(selection@, additive),
{
    if additive {
        copy_ids(selection)
    } else {
        let r: Vec<u128> = Vec::new();
        assert(r@ =~= Seq::<u128>::empty());
        r
    }
}

/// A new selection, how many nodes a tool counted, and what it says.
#[derive(Debug)]
pub struct Selected {
    pub selection: Vec<u128>,
    pub count: usize,
    pub message: String,
}

/// The nodes that a list of names stands for, as far as they exist.
pub open spec fn existing_ids(nodes: Seq<Node>, names: Seq<Seq<char>>) -> Seq<u128>
    decreases names.len(),
{
    if names.len() == 0 {
        Seq::empty()
    } else {
        let before = existing_ids(nodes, names.drop_last());
        match named_id(nodes, names.last()) {
            Some(id) => if has_node(nodes, id) {
                before.push(id)
            } else {
                before
            },
            None => before,
        }
    }
}

fn find_existing(nodes: &Vec<Node>, names: &Vec<String>) -> (r: Vec<u128>)
    ensures
        r@ == existing_ids(nodes@, texts(names@)),
{
    let ghost all = texts(names@);
    let mut out: Vec<u128> = Vec::new();
    let mut i: usize = 0;
    assert(all.take(0) =~= Seq::<Seq<char>>::empty());
    while i < names.len()
        invariant
            i <= names.len(),
            all == texts(names@),
            out@ == existing_ids(nodes@, all.take(i as int)),
        decreases names.len() - i,
    {
        proof {
            assert(all.take(i + 1).drop_last() =~= all.take(i as int));
            assert(all.take(i + 1).last() == names@[i as int]@);
        }
        if let Some(id) = resolve_node_id(nodes, names[i].as_str()) {
            if find_node(nodes, id).is_some() {
                out.push(id);
            }
        }
        i += 1;
    }
    assert(all.take(all.len() as int) =~= all);
    out
}

/// Selects the named nodes; with `additive`, besides what is selected.
pub fn set_selection(
    nodes: &Vec<Node>,
    selection: &Vec<u128>,
    names: &Vec<String>,
    additive: bool,
) -> (r: Selected)
    ensures
        r.selection@ == with_nodes(
            base_selection(selection@, additive),
            existing_ids(nodes@, texts(names@)),
        ),
        r.count == existing_ids(nodes@, texts(names@)).len(),
        r.message@ == "Selection: "@ + decimal_text(r.count as nat) + " added, "@ + decimal_text(
            r.selection@.len(),
        ) + " total"@,
{
    let ids = find_existing(nodes, names);
    let mut out = start_selection(selection, additive);
    add_all_to_selection(&mut out, &ids);
    let mut v = chars_of("Selection: ");
    push_all(&mut v, &number_text(ids.len() as u64));
    push_str(&mut v, " added, ");
    push_all(&mut v, &number_text(out.len() as u64));
    push_str(&mut v, " total");
    Selected { selection: out, count: ids.len(), message: text_of(&v) }
}

/// What is said about the selection.
pub open spec fn selection_text(n: nat) -> Seq<char> {
    if n == 0 {
        "Nothing selected"@
    } else {
        decimal_text(n) + " node(s) selected"@
    }
}

/// The positions of the nodes with these ids, as far as they exist.
pub open spec fn positions_of(nodes: Seq<Node>, ids: Seq<u128>, positions: Seq<usize>) -> bool
    decreases ids.len(),
{
    if ids.len() == 0 {
        positions.len() == 0
    } else if has_node(nodes, ids.last()) {
        positions.len() > 0 && is_node_at(nodes, ids.last(), positions.last() as int)
            && positions_of(nodes, ids.drop_last(), positions.drop_last())
    } else {
        positions_of(nodes, ids.drop_last(), positions)
    }
}

/// The positions of the nodes with these ids.
pub fn find_positions(nodes: &Vec<Node>, ids: &Vec<u128>) -> (r: Vec<usize>)
    ensures
        positions_of(nodes@, ids@, r@),
{
    let mut out: Vec<usize> = Vec::new();
    let mut i: usize = 0;
    assert(ids@.take(0) =~= Seq::<u128>::empty());
    while i < ids.len()
        invariant
            i <= ids.len(),
            positions_of(nodes@, ids@.take(i as int), out@),
        decreases ids.len() - i,
    {
        proof {
            assert(ids@.take(i + 1).drop_last() =~= ids@.take(i as int));
            assert(ids@.take(i + 1).last() == ids@[i as int]);
        }
        if let Some(k) = find_node(nodes, ids[i]) {
            let ghost before = out@;
            out.push(k);
            assert(out@.drop_last() =~= before);
        }
        i += 1;
    }
    assert(ids@.take(ids@.len() as int) =~= ids@);
    out
}

/// Reports the selection: the positions of the selected nodes that exist, and how
/// many are selected.
pub fn get_selection(nodes: &Vec<Node>, selection: &Vec<u128>) -> (r: (Vec<usize>, String))
    ensures
        positions_of(nodes@, selection@, r.0@),
        r.1@ == selection_text(selection@.len()),
{
    let positions = find_positions(nodes, selection);
    let message = if selection.len() == 0 {
        "Nothing selected".to_owned()
    } else {
        let mut v = number_text(selection.len() as u64);
        push_str(&mut v, " node(s) selected");
        text_of(&v)
    };
    (positions, message)
}

/// A layer of the document.
#[derive(Debug)]
pub struct Layer {
    pub id: u128,
    pub name: String,
    pub locked: bool,
}

/// The id of the first layer that is called `name`.
pub open spec fn named_layer(layers: Seq<Layer>, name: Seq<char>) -> Option<u128>
    decreases layers.len(),
{
    if layers.len() == 0 {
        None
    } else if layers[0].name@ == name {
        Some(layers[0].id)
    } else {
        named_layer(layers.skip(1), name)
    }
}

/// The layer that a caller names: by its id, or else by its name.
pub open spec fn layer_filter(layers: Seq<Layer>, name: Option<Seq<char>>) -> Option<u128> {
    match name {
        None => None,
        Some(n) => match parsed_uuid(n) {
            Some(id) => Some(id),
            None => named_layer(layers, n),
        },
    }
}

fn find_layer(layers: &Vec<Layer>, name: &str) -> (r: Option<u128>)
    ensures
        r == layer_filter(layers@, Some(name@)),
{
    if let Some(id) = parse_uuid(name) {
        return Some(id);
    }
    let mut i: usize = 0;
    assert(layers@.skip(0) =~= layers@);
    while i < layers.len()
        invariant
            i <= layers.len(),
            named_layer(layers@, name@) == named_layer(layers@.skip(i as int), name@),
            parsed_uuid(name@) is None,
        decreases layers.len() - i,
    {
        assert(layers@.skip(i as int)[0] == layers@[i as int]);
        assert(layers@.skip(i as int).skip(1) =~= layers@.skip(i + 1));
        if same_text(layers[i].name.as_str(), name) {
            return Some(layers[i].id);
        }
        i += 1;
    }
    None
}

/// The ids of the nodes of a layer, or of all nodes.
pub open spec fn layer_nodes(nodes: Seq<Node>, layer: Option<u128>) -> Seq<u128>
    decreases nodes.len(),
{
    if nodes.len() == 0 {
        Seq::empty()
    } else {
        let before = layer_nodes(nodes.drop_last(), layer);
        if layer is None || layer == Some(nodes.last().layer) {
            before.push(nodes.last().id)
        } else {
            before
        }
    }
}

/// Selects every node, or every node of a layer. A layer that cannot be found
/// does not narrow the choice.
pub fn select_all(nodes: &Vec<Node>, layers: &Vec<Layer>, layer: Option<&str>) -> (r: Selected)
    ensures
        ({
            let name = match layer {
                Some(s) => Some(s@),
                None => None,
            };
            let ids = layer_nodes(nodes@, layer_filter(layers@, name));
            &&& r.selection@ == with_nodes(Seq::empty(), ids)
            &&& r.count == ids.len()
            &&& r.message@ == counted("Selected "@, ids.len(), " node(s)"@)
        }),
{
    let filter = match layer {
        Some(s) => find_layer(layers, s),
        None => None,
    };
    let mut ids: Vec<u128> = Vec::new();
    let mut i: usize = 0;
    assert(nodes@.take(0) =~= Seq::<Node>::empty());
    while i < nodes.len()
        invariant
            i <= nodes.len(),
            ids@ == layer_nodes(nodes@.take(i as int), filter),
        decreases nodes.len() - i,
    {
        proof {
            assert(nodes@.take(i + 1).drop_last() =~= nodes@.take(i as int));
            assert(nodes@.take(i + 1).last() == nodes@[i as int]);
        }
        let wanted = match filter {
            None => true,
            Some(l) => l == nodes[i].layer,
        };
        if wanted {
            ids.push(nodes[i].id);
        }
        i += 1;
    }
    assert(nodes@.take(nodes@.len() as int) =~= nodes@);
    let mut out: Vec<u128> = Vec::new();
    assert(out@ =~= Seq::<u128>::empty());
    add_all_to_selection(&mut out, &ids);
    let n: usize = ids.len();
    Selected { selection: out, count: n, message: count_text("Selected ", n, " node(s)") }
}

/// Selects nothing, and says how many nodes were selected.
pub fn deselect_all(selection: &Vec<u128>) -> (r: Selected)
    ensures
        r.selection@.len() == 0,
        r.count == selection@.len(),
        r.message@ == counted("Deselected "@, selection@.len(), " node(s)"@),
{
    let n: usize = selection.len();
    Selected {
        selection: Vec::new(),
        count: n,
        message: count_text("Deselected ", n, " node(s)"),
    }
}

/// Which kind of object is chosen.
#[derive(Debug, Clone, Copy, PartialEq, Eq, Structural)]
pub enum ObjectKindFilter {
    Path,
    Text,
    Group,
    SameLayer,
}

pub open spec fn is_of_kind(node: Node, filter: ObjectKindFilter, active: Option<u128>) -> bool {
    match filter {
        ObjectKindFilter::Path => node.kind == NodeKind::Path,
        ObjectKindFilter::Text => node.kind == NodeKind::Text,
        ObjectKindFilter::Group => node.kind == NodeKind::Group,
        ObjectKindFilter::SameLayer => active == Some(node.layer),
    }
}

pub open spec fn filter_text(filter: ObjectKindFilter) -> Seq<char> {
    match filter {
        ObjectKindFilter::Path => "path"@,
        ObjectKindFilter::Text => "text"@,
        ObjectKindFilter::Group => "group"@,
        ObjectKindFilter::SameLayer => "samelayer"@,
    }
}

fn filter_name(filter: ObjectKindFilter) -> (r: &'static str)
    ensures
        r@ == filter_text(filter),
{
    match filter {
        ObjectKindFilter::Path => "path",
        ObjectKindFilter::Text => "text",
        ObjectKindFilter::Group => "group",
        ObjectKindFilter::SameLayer => "samelayer",
    }
}

/// The ids of the nodes of a kind.
pub open spec fn nodes_of_kind(
    nodes: Seq<Node>,
    filter: ObjectKindFilter,
    active: Option<u128>,
) -> Seq<u128>
    decreases nodes.len(),
{
    if nodes.len() == 0 {
        Seq::empty()
    } else {
        let before = nodes_of_kind(nodes.drop_last(), filter, active);
        if is_of_kind(nodes.last(), filter, active) {
            before.push(nodes.last().id)
        } else {
            before
        }
    }
}

/// Selects every node of a kind, or of the active layer.
pub fn select_by_kind(
    nodes: &Vec<Node>,
    selection: &Vec<u128>,
    active_layer: Option<u128>,
    kind: ObjectKindFilter,
    additive: bool,
) -> (r: Selected)
    ensures
        ({
            let ids = nodes_of_kind(nodes@, kind, active_layer);
            &&& r.selection@ == with_nodes(base_selection(selection@, additive), ids)
            &&& r.count == ids.len()
            &&& r.message@ == "Selected "@ + decimal_text(ids.len()) + " "@ + filter_text(kind)
                + " node(s)"@
        }),
{
    let mut ids: Vec<u128> = Vec::new();
    let mut i: usize = 0;
    assert(nodes@.take(0) =~= Seq::<Node>::empty());
    while i < nodes.len()
        invariant
            i <= nodes.len(),
            ids@ == nodes_of_kind(nodes@.take(i as int), kind, active_layer),
        decreases nodes.len() - i,
    {
        proof {
            assert(nodes@.take(i + 1).drop_last() =~= nodes@.take(i as int));
            assert(nodes@.take(i + 1).last() == nodes@[i as int]);
        }
        let wanted = match kind {
            ObjectKindFilter::Path => nodes[i].kind == NodeKind::Path,
            ObjectKindFilter::Text => nodes[i].kind == NodeKind::Text,
            ObjectKindFilter::Group => nodes[i].kind == NodeKind::Group,
            ObjectKindFilter::SameLayer => match active_layer {
                Some(l) => l == nodes[i].layer,
                None => false,
            },
        };
        if wanted {
            ids.push(nodes[i].id);
        }
        i += 1;
    }
    assert(nodes@.take(nodes@.len() as int) =~= nodes@);
    let mut out = start_selection(selection, additive);
    add_all_to_selection(&mut out, &ids);
    let mut v = chars_of("Selected ");
    push_all(&mut v, &number_text(ids.len() as u64));
    push_str(&mut v, " ");
    push_str(&mut v, filter_name(kind));
    push_str(&mut v, " node(s)");
    Selected { selection: out, count: ids.len(), message: text_of(&v) }
}

/// What comes of choosing the children of a group.
#[derive(Debug)]
pub enum GroupSelected {
    /// The node is none, or no group.
    Refused(String),
    /// The group is empty, and the selection stays as it is.
    Empty(String),
    Children(Selected),
}

/// Selects the direct children of a group. `kind_debug` is how the kind of a node
/// that is no group is shown.
pub fn select_inside_group(
    nodes: &Vec<Node>,
    selection: &Vec<u128>,
    group_id: u128,
    additive: bool,
    kind_debug: &str,
) -> (r: GroupSelected)
    ensures
        !has_node(nodes@, group_id) ==> (r matches GroupSelected::Refused(m) && m@
            == "No node found with id "@ + id_text(group_id)),
        forall|k: int|
            #![trigger nodes@[k]]
            is_node_at(nodes@, group_id, k) ==> if nodes@[k].kind != NodeKind::Group {
                r matches GroupSelected::Refused(m) && m@ == "Node "@ + id_text(group_id)
                    + " is not a group (kind: "@ + kind_debug@ + ")"@
            } else if nodes@[k].children@.len() == 0 {
                r matches GroupSelected::Empty(m) && m@ == "Group "@ + id_text(group_id)
                    + " has no children"@
            } else {
                r matches GroupSelected::Children(s) && s.selection@ == with_nodes(
                    base_selection(selection@, additive),
                    nodes@[k].children@,
                ) && s.count == nodes@[k].children@.len() && s.message@ == counted(
                    "Selected "@,
                    nodes@[k].children@.len(),
                    " child node(s) inside group "@,
                ) + id_text(group_id)
            },
{
    match find_node(nodes, group_id) {
        None => {
            let mut v = chars_of("No node found with id ");
            push_id(&mut v, group_id);
            GroupSelected::Refused(text_of(&v))
        },
        Some(k) => {
            let node = &nodes[k];
            if node.kind != NodeKind::Group {
                let mut v = chars_of("Node ");
                push_id(&mut v, group_id);
                push_str(&mut v, " is not a group (kind: ");
                push_str(&mut v, kind_debug);
                push_str(&mut v, ")");
                return GroupSelected::Refused(text_of(&v));
            }
            if node.children.len() == 0 {
                return GroupSelected::Empty(around_id("Group ", group_id, " has no children"));
            }
            let mut out = start_selection(selection, additive);
            add_all_to_selection(&mut out, &node.children);
            let mut v = chars_of("Selected ");
            push_all(&mut v, &number_text(node.children.len() as u64));
            push_str(&mut v, " child node(s) inside group ");
            push_id(&mut v, group_id);
            GroupSelected::Children(
                Selected { selection: out, count: node.children.len(), message: text_of(&v) },
            )
        },
    }
}

/// The points of a box that a lasso asks about: its centre, or its corners.
pub open spec fn lasso_points_of(w: Bounds, centroid: bool) -> Seq<Point> {
    if centroid {
        seq![Point { x: half(f_add(w.x0, w.x1)), y: half(f_add(w.y0, w.y1)) }]
    } else {
        seq![
            Point { x: w.x0, y: w.y0 },
            Point { x: w.x1, y: w.y0 },
            Point { x: w.x0, y: w.y1 },
            Point { x: w.x1, y: w.y1 },
        ]
    }
}

/// The points of a box that a lasso asks about; a node is caught where any of
/// them lies in the polygon.
pub fn lasso_points(w: &Bounds, centroid_mode: bool) -> (r: Vec<Point>)
    ensures
        r@ == lasso_points_of(*w, centroid_mode),
{
    let mut out: Vec<Point> = Vec::new();
    if centroid_mode {
        out.push(Point { x: halved(plus(w.x0, w.x1)), y: halved(plus(w.y0, w.y1)) });
    } else {
        out.push(Point { x: w.x0, y: w.y0 });
        out.push(Point { x: w.x1, y: w.y0 });
        out.push(Point { x: w.x0, y: w.y1 });
        out.push(Point { x: w.x1, y: w.y1 });
    }
    assert(out@ =~= lasso_points_of(*w, centroid_mode));
    out
}

/// A node under a lasso: whether it is visible, and of each of its points, as
/// [`lasso_points`] gives them, whether it lies in the polygon. A node without a box
/// has no points.
#[derive(Debug)]
pub struct LassoHit {
    pub id: u128,
    pub visible: bool,
    pub inside: Vec<bool>,
}

/// A lasso catches a visible node of which any point lies in the polygon.
pub open spec fn is_caught(hit: LassoHit) -> bool {
    hit.visible && exists|i: int| 0 <= i < hit.inside@.len() && #[trigger] hit.inside@[i]
}

/// Whether a lasso catches a node.
pub fn catches(hit: &LassoHit) -> (r: bool)
    ensures
        r == is_caught(*hit),
{
    if !hit.visible {
        return false;
    }
    let mut i: usize = 0;
    while i < hit.inside.len()
        invariant
            i <= hit.inside.len(),
            hit.visible,
            forall|j: int| 0 <= j < i ==> !#[trigger] hit.inside@[j],
        decreases hit.inside.len() - i,
    {
        if hit.inside[i] {
            return true;
        }
        i += 1;
    }
    false
}

/// The caught nodes, in drawing order.
pub open spec fn caught_ids(hits: Seq<LassoHit>) -> Seq<u128>
    decreases hits.len(),
{
    if hits.len() == 0 {
        Seq::empty()
    } else {
        let before = caught_ids(hits.drop_last());
        if is_caught(hits.last()) {
            before.push(hits.last().id)
        } else {
            before
        }
    }
}

/// Selects the nodes that a polygon of `points` corners catches: those that are visible
/// and of which any point lies in it.
pub fn lasso_select(
    points: usize,
    hits: &Vec<LassoHit>,
    selection: &Vec<u128>,
    additive: bool,
) -> (r: Result<Selected, String>)
    ensures
        match r {
            Err(e) => points < 3 && e@
                == "lasso_select requires at least 3 points to form a closed polygon"@,
            Ok(s) => {
                let ids = caught_ids(hits@);
                points >= 3 && s.selection@ == with_nodes(
                    base_selection(selection@, additive),
                    ids,
                ) && s.count == ids.len() && s.message@ == counted(
                    "Lasso selected "@,
                    ids.len(),
                    " node(s)."@,
                )
            },
        },
{
    if points < 3 {
        return Err("lasso_select requires at least 3 points to form a closed polygon".to_owned());
    }
    let mut ids: Vec<u128> = Vec::new();
    let mut i: usize = 0;
    assert(hits@.take(0) =~= Seq::<LassoHit>::empty());
    while i < hits.len()
        invariant
            i <= hits.len(),
            ids@ == caught_ids(hits@.take(i as int)),
        decreases hits.len() - i,
    {
        proof {
            assert(hits@.take(i + 1).drop_last() =~= hits@.take(i as int));
            assert(hits@.take(i + 1).last() == hits@[i as int]);
        }
        if catches(&hits[i]) {
            ids.push(hits[i].id);
        }
        i += 1;
    }
    assert(hits@.take(hits@.len() as int) =~= hits@);
    let mut out = start_selection(selection, additive);
    add_all_to_selection(&mut out, &ids);
    let n: usize = ids.len();
    Ok(
        Selected {
            selection: out,
            count: n,
            message: count_text("Lasso selected ", n, " node(s)."),
        },
    )
}

/// An attribute by which nodes are compared.
#[derive(Debug, Clone, Copy, PartialEq, Eq, Structural)]
pub enum SelectSameAttribute {
    FillColor,
    StrokeColor,
    StrokeWeight,
    Opacity,
    BlendMode,
    ObjectType,
}

pub open spec fn attribute_label(a: SelectSameAttribute) -> Seq<char> {
    match a {
        SelectSameAttribute::FillColor => "fill color"@,
        SelectSameAttribute::StrokeColor => "stroke color"@,
        SelectSameAttribute::StrokeWeight => "stroke weight"@,
        SelectSameAttribute::Opacity => "opacity"@,
        SelectSameAttribute::BlendMode => "blend mode"@,
        SelectSameAttribute::ObjectType => "object type"@,
    }
}

pub fn attribute_name(a: SelectSameAttribute) -> (r: &'static str)
    ensures
        r@ == attribute_label(a),
{
    match a {
        SelectSameAttribute::FillColor => "fill color",
        SelectSameAttribute::StrokeColor => "stroke color",
        SelectSameAttribute::StrokeWeight => "stroke weight",
        SelectSameAttribute::Opacity => "opacity",
        SelectSameAttribute::BlendMode => "blend mode",
        SelectSameAttribute::ObjectType => "object type",
    }
}

/// How a node stands to the reference node: its solid fill and its stroke as
/// distances of colours in the binary32 format, where both have one.
#[derive(Debug, Clone, Copy, PartialEq, Eq, Structural)]
pub struct Likeness {
    /// Whether the node has a solid fill.
    pub solid: bool,
    pub fill_distance: Double,
    pub stroke_distance: Double,
}

/// The node shares the attribute with the reference node. Colours are compared
/// by their distance, strokes on paths only.
pub open spec fn shares(
    reference: Node,
    reference_solid: bool,
    node: Node,
    like: Likeness,
    a: SelectSameAttribute,
    tolerance: Double,
) -> bool {
    let paths = reference.kind == NodeKind::Path && node.kind == NodeKind::Path;
    match a {
        SelectSameAttribute::FillColor => if reference_solid && like.solid {
            f_at_most(like.fill_distance, tolerance)
        } else {
            !reference_solid && !like.solid
        },
        SelectSameAttribute::StrokeColor => paths && if reference.stroke_enabled
            && node.stroke_enabled {
            f_at_most(like.stroke_distance, tolerance)
        } else {
            !reference.stroke_enabled && !node.stroke_enabled
        },
        SelectSameAttribute::StrokeWeight => paths && f_at_most(
            f_abs(f_sub(reference.stroke_width, node.stroke_width)),
            tolerance,
        ),
        SelectSameAttribute::Opacity => f_at_most(
            f_abs(f_narrow(f_sub(reference.opacity, node.opacity))),
            tolerance,
        ),
        SelectSameAttribute::BlendMode => reference.blend_mode == node.blend_mode,
        SelectSameAttribute::ObjectType => reference.kind == node.kind,
    }
}

fn do_share(
    reference: &Node,
    reference_solid: bool,
    node: &Node,
    like: Likeness,
    a: SelectSameAttribute,
    tolerance: Double,
) -> (r: bool)
    ensures
        r == shares(*reference, reference_solid, *node, like, a, tolerance),
{
    let paths = reference.kind == NodeKind::Path && node.kind == NodeKind::Path;
    match a {
        SelectSameAttribute::FillColor => if reference_solid && like.solid {
            at_most(like.fill_distance, tolerance)
        } else {
            !reference_solid && !like.solid
        },
        SelectSameAttribute::StrokeColor => paths && if reference.stroke_enabled
            && node.stroke_enabled {
            at_most(like.stroke_distance, tolerance)
        } else {
            !reference.stroke_enabled && !node.stroke_enabled
        },
        SelectSameAttribute::StrokeWeight => paths && at_most(
            absolute(minus(reference.stroke_width, node.stroke_width)),
            tolerance,
        ),
        SelectSameAttribute::Opacity => at_most(
            absolute(narrowed(minus(reference.opacity, node.opacity))),
            tolerance,
        ),
        SelectSameAttribute::BlendMode => reference.blend_mode == node.blend_mode,
        SelectSameAttribute::ObjectType => reference.kind == node.kind,
    }
}

/// The ids of the first `n` nodes that share the attribute with node `k`; that
/// node itself only where `include_self` says so.
pub open spec fn sharing_ids(
    nodes: Seq<Node>,
    likes: Seq<Likeness>,
    k: int,
    a: SelectSameAttribute,
    tolerance: Double,
    include_self: bool,
    n: nat,
) -> Seq<u128>
    decreases n,
{
    if n == 0 {
        Seq::empty()
    } else {
        let before = sharing_ids(nodes, likes, k, a, tolerance, include_self, (n - 1) as nat);
        let node = nodes[n - 1];
        if (node.id != nodes[k].id || include_self) && shares(
            nodes[k],
            likes[k].solid,
            node,
            likes[n - 1],
            a,
            tolerance,
        ) {
            before.push(node.id)
        } else {
            before
        }
    }
}

fn find_sharing(
    nodes: &Vec<Node>,
    likes: &Vec<Likeness>,
    k: usize,
    a: SelectSameAttribute,
    tolerance: Double,
    include_self: bool,
) -> (r: Vec<u128>)
    requires
        k < nodes.len(),
        nodes.len() == likes.len(),
    ensures
        r@ == sharing_ids(nodes@, likes@, k as int, a, tolerance, include_self, nodes@.len()),
{
    let mut ids: Vec<u128> = Vec::new();
    let mut i: usize = 0;
    while i < nodes.len()
        invariant
            i <= nodes.len(),
            k < nodes.len(),
            nodes.len() == likes.len(),
            ids@ == sharing_ids(nodes@, likes@, k as int, a, tolerance, include_self, i as nat),
        decreases nodes.len() - i,
    {
        let is_self = nodes[i].id == nodes[k].id;
        if (!is_self || include_self) && do_share(
            &nodes[k],
            likes[k].solid,
            &nodes[i],
            likes[i],
            a,
            tolerance,
        ) {
            ids.push(nodes[i].id);
        }
        i += 1;
    }
    ids
}

/// Selects the nodes that share an attribute with the node `node_id`, within a
/// tolerance.
pub fn select_same(
    nodes: &Vec<Node>,
    likes: &Vec<Likeness>,
    node_id: u128,
    attribute: SelectSameAttribute,
    tolerance: Double,
    include_self: bool,
) -> (r: Result<Selected, String>)
    requires
        nodes.len() == likes.len(),
    ensures
        !has_node(nodes@, node_id) ==> (r matches Err(e) && e@ == "reference node "@ + id_text(
            node_id,
        ) + " not found"@),
        forall|k: int|
            #![trigger nodes@[k]]
            is_node_at(nodes@, node_id, k) ==> {
                let ids = sharing_ids(
                    nodes@,
                    likes@,
                    k,
                    attribute,
                    f_narrow(tolerance),
                    include_self,
                    nodes@.len(),
                );
                r matches Ok(s) && s.selection@ == with_nodes(Seq::empty(), ids) && s.count
                    == ids.len() && s.message@ == counted(
                    "Selected "@,
                    ids.len(),
                    " node(s) with matching "@,
                ) + attribute_label(attribute) + "."@
            },
{
    match find_node(nodes, node_id) {
        None => Err(around_id("reference node ", node_id, " not found")),
        Some(k) => {
            let ids = find_sharing(nodes, likes, k, attribute, narrowed(tolerance), include_self);
            let mut out: Vec<u128> = Vec::new();
            assert(out@ =~= Seq::<u128>::empty());
            add_all_to_selection(&mut out, &ids);
            let mut v = chars_of("Selected ");
            push_all(&mut v, &number_text(ids.len() as u64));
            push_str(&mut v, " node(s) with matching ");
            push_str(&mut v, attribute_name(attribute));
            push_str(&mut v, ".");
            Ok(Selected { selection: out, count: ids.len(), message: text_of(&v) })
        },
    }
}

/// The point lies in the box or on its edge.
pub open spec fn in_box(w: Bounds, x: Double, y: Double) -> bool {
    f_at_most(w.x0, x) && f_at_most(x, w.x1) && f_at_most(w.y0, y) && f_at_most(y, w.y1)
}

/// A click at the point hits the node.
pub open spec fn is_hit(node: Node, w: Option<Bounds>, x: Double, y: Double) -> bool {
    node.visible && !node.locked && (w matches Some(b) && in_box(b, x, y))
}

/// Node `k` is the topmost one that is hit: none after it in drawing order is.
pub open spec fn is_topmost_hit(
    nodes: Seq<Node>,
    boxes: Seq<Option<Bounds>>,
    x: Double,
    y: Double,
    k: int,
) -> bool {
    0 <= k < nodes.len() && is_hit(nodes[k], boxes[k], x, y) && forall|j: int|
        k < j < nodes.len() ==> !is_hit(#[trigger] nodes[j], boxes[j], x, y)
}

/// The topmost node at a point. The nodes come in drawing order, with their boxes
/// in the world.
pub fn topmost_hit(nodes: &Vec<Node>, boxes: &Vec<Option<Bounds>>, x: Double, y: Double) -> (r:
    Option<usize>)
    requires
        nodes.len() == boxes.len(),
    ensures
        match r {
            Some(k) => is_topmost_hit(nodes@, boxes@, x, y, k as int),
            None => forall|j: int|
                0 <= j < nodes.len() ==> !is_hit(#[trigger] nodes@[j], boxes@[j], x, y),
        },
{
    let mut n: usize = nodes.len();
    while n > 0
        invariant
            n <= nodes.len(),
            nodes.len() == boxes.len(),
            forall|j: int|
                n <= j < nodes.len() ==> !is_hit(#[trigger] nodes@[j], boxes@[j], x, y),
        decreases n,
    {
        n -= 1;
        if nodes[n].visible && !nodes[n].locked {
            if let Some(b) = boxes[n] {
                if at_most(b.x0, x) && at_most(x, b.x1) && at_most(b.y0, y) && at_most(y, b.y1) {
                    assert(is_hit(nodes@[n as int], boxes@[n as int], x, y));
                    return Some(n);
                }
            }
        }
        assert(!is_hit(nodes@[n as int], boxes@[n as int], x, y));
    }
    None
}

/// Selects the nodes that share an attribute with the topmost visible unlocked
/// node at a point. The nodes come in drawing order, with their boxes in the
/// world and how they stand to the node that is hit.
pub fn magic_wand_select(
    nodes: &Vec<Node>,
    boxes: &Vec<Option<Bounds>>,
    likes: &Vec<Likeness>,
    x: Double,
    y: Double,
    attribute: SelectSameAttribute,
    tolerance: Double,
) -> (r: Result<Selected, String>)
    requires
        nodes.len() == boxes.len(),
        nodes.len() == likes.len(),
    ensures
        (forall|j: int| 0 <= j < nodes.len() ==> !is_hit(#[trigger] nodes@[j], boxes@[j], x, y))
            ==> (r matches Err(e) && e@
            == "No node found at the specified canvas coordinates"@),
        forall|k: int|
            #![trigger nodes@[k]]
            is_topmost_hit(nodes@, boxes@, x, y, k) ==> {
                let ids = sharing_ids(
                    nodes@,
                    likes@,
                    k,
                    attribute,
                    f_narrow(tolerance),
                    true,
                    nodes@.len(),
                );
                r matches Ok(s) && s.selection@ == with_nodes(Seq::empty(), ids) && s.count
                    == ids.len() && s.message@ == "Clicked node: "@ + nodes@[k].name@ + counted(
                    ". Selected "@,
                    ids.len(),
                    " node(s) with matching "@,
                ) + attribute_label(attribute) + "."@
            },
{
    match topmost_hit(nodes, boxes, x, y) {
        None => Err("No node found at the specified canvas coordinates".to_owned()),
        Some(k) => {
            let ids = find_sharing(nodes, likes, k, attribute, narrowed(tolerance), true);
            let mut out: Vec<u128> = Vec::new();
            assert(out@ =~= Seq::<u128>::empty());
            add_all_to_selection(&mut out, &ids);
            let mut v = chars_of("Clicked node: ");
            push_str(&mut v, nodes[k].name.as_str());
            push_str(&mut v, ". Selected ");
            push_all(&mut v, &number_text(ids.len() as u64));
            push_str(&mut v, " node(s) with matching ");
            push_str(&mut v, attribute_name(attribute));
            push_str(&mut v, ".");
            let message = text_of(&v);
            proof {
                assert forall|j: int|
                    #![trigger nodes@[j]]
                    is_topmost_hit(nodes@, boxes@, x, y, j) implies j == k by {
                    if j < k {
                        assert(!is_hit(nodes@[k as int], boxes@[k as int], x, y));
                    } else if j > k {
                        assert(!is_hit(nodes@[j], boxes@[j], x, y));
                    }
                }
                let ids_s = ids@;
                assert(message@ =~= "Clicked node: "@ + nodes@[k as int].name@ + counted(
                    ". Selected "@,
                    ids_s.len(),
                    " node(s) with matching "@,
                ) + attribute_label(attribute) + "."@);
            }
            Ok(Selected { selection: out, count: ids.len(), message })
        },
    }
}


/// A box and a region are apart only where no point lies in both: the one ends before the
/// other starts, across or down.
pub proof fn law_apart_means_no_common_point(w: Bounds, r: Region, j: nat)
    requires
        is_plain(w.x0, j),
        is_plain(w.x1, j),
        is_plain(w.y0, j),
        is_plain(w.y1, j),
        is_plain(r.x, j),
        is_plain(r.y, j),
        is_plain(r.width, j),
        is_plain(r.height, j),
        exact(w.x0) <= exact(w.x1),
        exact(w.y0) <= exact(w.y1),
        exact(r.width) >= 0,
        exact(r.height) >= 0,
    ensures
        !apart(w, r) <==> exists|x: int, y: int|
            #![trigger lies_in_both(w, r, x, y)]
            lies_in_both(w, r, x, y),
{
    lemma_plain(w.x0, j);
    lemma_plain(w.x1, j);
    lemma_plain(w.y0, j);
    lemma_plain(w.y1, j);
    lemma_plain(r.x, j);
    lemma_plain(r.y, j);
    lemma_plain(r.width, j);
    lemma_plain(r.height, j);
    lemma_add(r.x, r.width, j, 0x4000_0000, 0x4000_0000);
    lemma_add(r.y, r.height, j, 0x4000_0000, 0x4000_0000);
    lemma_order(w.x1, r.x);
    lemma_order(f_add(r.x, r.width), w.x0);
    lemma_order(w.y1, r.y);
    lemma_order(f_add(r.y, r.height), w.y0);
    if !apart(w, r) {
        let x = if exact(w.x0) <= exact(r.x) {
            exact(r.x)
        } else {
            exact(w.x0)
        };
        let y = if exact(w.y0) <= exact(r.y) {
            exact(r.y)
        } else {
            exact(w.y0)
        };
        assert(lies_in_both(w, r, x, y));
    }
}

/// The point lies in the box and in the region.
pub open spec fn lies_in_both(w: Bounds, r: Region, x: int, y: int) -> bool {
    &&& exact(w.x0) <= x <= exact(w.x1) && exact(w.y0) <= y <= exact(w.y1)
    &&& exact(r.x) <= x <= exact(r.x) + exact(r.width)
    &&& exact(r.y) <= y <= exact(r.y) + exact(r.height)
}

/// A lasso tries points of the box: its corners, all four of them, or its middle.
pub proof fn law_lasso_tries_the_box(w: Bounds, i: int, j: nat)
    requires
        is_plain(w.x0, j),
        is_plain(w.x1, j),
        is_plain(w.y0, j),
        is_plain(w.y1, j),
        exact(w.x0) <= exact(w.x1),
        exact(w.y0) <= exact(w.y1),
        0 <= i < 4,
    ensures
        ({
            let middle = lasso_points_of(w, true);
            let corners = lasso_points_of(w, false);
            &&& middle.len() == 1 && corners.len() == 4
            &&& in_box(w, corners[i].x, corners[i].y)
            &&& 2 * exact(middle[0].x) == exact(w.x0) + exact(w.x1)
            &&& 2 * exact(middle[0].y) == exact(w.y0) + exact(w.y1)
            &&& corners.contains(Point { x: w.x0, y: w.y0 })
            &&& corners.contains(Point { x: w.x0, y: w.y1 })
            &&& corners.contains(Point { x: w.x1, y: w.y0 })
            &&& corners.contains(Point { x: w.x1, y: w.y1 })
        }),
{
    lemma_plain(w.x0, j);
    lemma_plain(w.x1, j);
    lemma_plain(w.y0, j);
    lemma_plain(w.y1, j);
    lemma_add(w.x0, w.x1, j, 0x4000_0000, 0x4000_0000);
    lemma_add(w.y0, w.y1, j, 0x4000_0000, 0x4000_0000);
    lemma_half(f_add(w.x0, w.x1), j, 0x8000_0000);
    lemma_half(f_add(w.y0, w.y1), j, 0x8000_0000);
    lemma_order(w.x0, w.x1);
    lemma_order(w.y0, w.y1);
    lemma_order(w.x0, w.x0);
    lemma_order(w.x1, w.x1);
    lemma_order(w.y0, w.y0);
    lemma_order(w.y1, w.y1);
    let c = lasso_points_of(w, false);
    assert(c[0] == (Point { x: w.x0, y: w.y0 }));
    assert(c[1] == (Point { x: w.x1, y: w.y0 }));
    assert(c[2] == (Point { x: w.x0, y: w.y1 }));
    assert(c[3] == (Point { x: w.x1, y: w.y1 }));
}

/// A point is in a box where it is between its edges, across and down.
pub proof fn law_box_holds_what_is_between(w: Bounds, x: Double, y: Double)
    requires
        w.x0.wf(),
        w.x1.wf(),
        w.y0.wf(),
        w.y1.wf(),
        x.wf(),
        y.wf(),
    ensures
        in_box(w, x, y) <==> exact(w.x0) <= exact(x) <= exact(w.x1) && exact(w.y0) <= exact(y)
            <= exact(w.y1),
{
    lemma_order(w.x0, x);
    lemma_order(x, w.x1);
    lemma_order(w.y0, y);
    lemma_order(y, w.y1);
}

/// Whether two nodes share an attribute depends on that attribute alone: what else is changed
/// of a node, or how far its other colour is, makes no difference.
pub proof fn law_only_the_attribute_counts(
    reference: Node,
    solid: bool,
    node: Node,
    other: Node,
    like: Likeness,
    unlike: Likeness,
    a: SelectSameAttribute,
    tolerance: Double,
)
    requires
        node.kind == other.kind,
        like.solid == unlike.solid,
    ensures
        a == SelectSameAttribute::FillColor && like.fill_distance == unlike.fill_distance ==> shares(
            reference,
            solid,
            node,
            like,
            a,
            tolerance,
        ) == shares(reference, solid, other, unlike, a, tolerance),
        a == SelectSameAttribute::StrokeColor && like.stroke_distance == unlike.stroke_distance
            && node.stroke_enabled == other.stroke_enabled ==> shares(
            reference,
            solid,
            node,
            like,
            a,
            tolerance,
        ) == shares(reference, solid, other, unlike, a, tolerance),
        a == SelectSameAttribute::StrokeWeight && node.stroke_width == other.stroke_width ==> shares(
            reference,
            solid,
            node,
            like,
            a,
            tolerance,
        ) == shares(reference, solid, other, unlike, a, tolerance),
        a == SelectSameAttribute::Opacity && node.opacity == other.opacity ==> shares(
            reference,
            solid,
            node,
            like,
            a,
            tolerance,
        ) == shares(reference, solid, other, unlike, a, tolerance),
        a == SelectSameAttribute::BlendMode && node.blend_mode == other.blend_mode ==> shares(
            reference,
            solid,
            node,
            like,
            a,
            tolerance,
        ) == shares(reference, solid, other, unlike, a, tolerance),
        a == SelectSameAttribute::ObjectType ==> shares(
            reference,
            solid,
            node,
            like,
            a,
            tolerance,
        ) == shares(reference, solid, other, unlike, a, tolerance),
{
}

/// A node shares every attribute with itself: a path that is at no distance from itself.
pub proof fn law_nodes_share_with_themselves(
    node: Node,
    like: Likeness,
    a: SelectSameAttribute,
    tolerance: Double,
)
    requires
        node.kind == NodeKind::Path,
        node.stroke_width.wf(),
        node.opacity.wf(),
        like.fill_distance.bits == 0,
        like.stroke_distance.bits == 0,
        tolerance.wf(),
        tolerance.key() >= 0,
    ensures
        shares(node, like.solid, node, like, a, tolerance),
{
    lemma_self_difference(node.stroke_width);
    lemma_self_difference(node.opacity);
    lemma_short_nothing();
}


/// What is selected by kind is of that kind, and every node of it is selected; the nodes of a
/// layer are those on it, or all.
pub proof fn law_selected_nodes_are_of_the_kind(
    nodes: Seq<Node>,
    filter: ObjectKindFilter,
    active: Option<u128>,
    layer: Option<u128>,
    k: int,
)
    requires
        0 <= k < nodes.len(),
    ensures
        filter == ObjectKindFilter::Path && nodes[k].kind == NodeKind::Path ==> nodes_of_kind(
            nodes,
            filter,
            active,
        ).contains(nodes[k].id),
        filter == ObjectKindFilter::Text && nodes[k].kind == NodeKind::Text ==> nodes_of_kind(
            nodes,
            filter,
            active,
        ).contains(nodes[k].id),
        filter == ObjectKindFilter::Group && nodes[k].kind == NodeKind::Group ==> nodes_of_kind(
            nodes,
            filter,
            active,
        ).contains(nodes[k].id),
        filter == ObjectKindFilter::SameLayer && active == Some(nodes[k].layer) ==> nodes_of_kind(
            nodes,
            filter,
            active,
        ).contains(nodes[k].id),
        layer is None || layer == Some(nodes[k].layer) ==> layer_nodes(nodes, layer).contains(
            nodes[k].id,
        ),
    decreases nodes.len(),
{
    let less = nodes.drop_last();
    let kinds = nodes_of_kind(nodes, filter, active);
    let before = nodes_of_kind(less, filter, active);
    let on = layer_nodes(nodes, layer);
    let on_before = layer_nodes(less, layer);
    if k < less.len() {
        law_selected_nodes_are_of_the_kind(less, filter, active, layer, k);
        assert(less[k] == nodes[k]);
        if before.contains(nodes[k].id) {
            let i = choose|i: int| 0 <= i < before.len() && before[i] == nodes[k].id;
            assert(kinds[i] == nodes[k].id);
        }
        if on_before.contains(nodes[k].id) {
            let i = choose|i: int| 0 <= i < on_before.len() && on_before[i] == nodes[k].id;
            assert(on[i] == nodes[k].id);
        }
    } else {
        if kinds.len() > before.len() {
            assert(kinds[before.len() as int] == nodes[k].id);
        }
        if on.len() > on_before.len() {
            assert(on[on_before.len() as int] == nodes[k].id);
        }
    }
}

/// And nothing else is selected by kind.
pub proof fn law_nothing_else_is_selected(
    nodes: Seq<Node>,
    filter: ObjectKindFilter,
    active: Option<u128>,
    a: int,
)
    requires
        0 <= a < nodes_of_kind(nodes, filter, active).len(),
    ensures
        exists|k: int|
            0 <= k < nodes.len() && nodes_of_kind(nodes, filter, active)[a] == (
            #[trigger] nodes[k]).id && (filter == ObjectKindFilter::Path ==> nodes[k].kind
                == NodeKind::Path) && (filter == ObjectKindFilter::Text ==> nodes[k].kind
                == NodeKind::Text) && (filter == ObjectKindFilter::Group ==> nodes[k].kind
                == NodeKind::Group) && (filter == ObjectKindFilter::SameLayer ==> active == Some(
                nodes[k].layer,
            )),
    decreases nodes.len(),
{
    let less = nodes.drop_last();
    let before = nodes_of_kind(less, filter, active);
    if a < before.len() {
        law_nothing_else_is_selected(less, filter, active, a);
        let k = choose|k: int|
            0 <= k < less.len() && before[a] == (#[trigger] less[k]).id && (filter
                == ObjectKindFilter::Path ==> less[k].kind == NodeKind::Path) && (filter
                == ObjectKindFilter::Text ==> less[k].kind == NodeKind::Text) && (filter
                == ObjectKindFilter::Group ==> less[k].kind == NodeKind::Group) && (filter
                == ObjectKindFilter::SameLayer ==> active == Some(less[k].layer));
        assert(nodes[k] == less[k]);
    } else {
        assert(nodes[nodes.len() - 1].id == nodes_of_kind(nodes, filter, active)[a]);
    }
}

} // verus!
