//! The nodes of a document, as far as the tools read them, and how callers name
//! them.
use crate::bezier::{Affine, Bounds};
use crate::double::Double;
use crate::text::{chars_of, number_text, push_all, push_str, same_text, text_of, texts};
use vstd::prelude::*;

verus! {

/// What a node is.
#[derive(Debug, Clone, Copy, PartialEq, Eq, Structural)]
pub enum NodeKind {
    Path,
    Group,
    Text,
    Raster,
}

/// A colour. The channels are numbers of the binary32 format.
#[derive(Debug, Clone, Copy, PartialEq, Eq, Structural)]
pub struct Color {
    pub r: Double,
    pub g: Double,
    pub b: Double,
    pub a: Double,
}

/// A colour that a caller wrote, with what it stands for where it is one.
#[derive(Debug)]
pub struct ColorArg {
    pub text: String,
    pub color: Option<Color>,
}

/// How an area is painted, by the colours in it.
#[derive(Debug)]
pub enum Fill {
    Solid(Color),
    /// The colours of the stops.
    Gradient(Vec<Color>),
    /// The colours of the control points.
    Fluid(Vec<Color>),
    /// The colours of the cells.
    Mesh(Vec<Color>),
    Other,
}

/// How a text stands to its line.
#[derive(Debug, Clone, Copy, PartialEq, Eq, Structural)]
pub enum ScriptPosition {
    Normal,
    Superscript,
    Subscript,
}

/// How the lines of a text are aligned.
#[derive(Debug, Clone, Copy, PartialEq, Eq, Structural)]
pub enum TextAlign {
    Left,
    Center,
    Right,
}

/// What a text node has besides its style.
#[derive(Debug)]
pub struct TextState {
    pub font_size: Double,
    pub font_weight: u16,
    pub letter_spacing: Double,
    pub line_height: Double,
    pub align: TextAlign,
    pub baseline_shift: Double,
    pub script_position: ScriptPosition,
    pub spacing_before: Double,
    pub spacing_after: Double,
    pub indent: Double,
    pub area_path: Option<u128>,
    pub path_spine: Option<u128>,
    pub features: Vec<String>,
    pub variable: Option<String>,
    pub prev_frame: Option<u128>,
    pub next_frame: Option<u128>,
}

/// The colours, as texts, that an instance of a symbol has in place of the symbol's.
#[derive(Debug)]
pub struct SymbolOverrides {
    pub fill: Option<String>,
    pub stroke: Option<String>,
}

/// A node of the document. What a kind of node does not have is not read.
#[derive(Debug)]
pub struct Node {
    pub id: u128,
    pub name: String,
    pub layer: u128,
    pub kind: NodeKind,
    pub tags: Vec<String>,
    pub visible: bool,
    pub locked: bool,
    /// A number of the binary32 format.
    pub opacity: Double,
    /// The blend mode by its number.
    pub blend_mode: u32,
    pub bounds: Option<Bounds>,
    pub transform: Affine,
    pub children: Vec<u128>,
    pub fill_enabled: bool,
    pub fill: Fill,
    pub stroke_enabled: bool,
    pub stroke_color: Color,
    pub stroke_width: Double,
    pub font_family: String,
    pub content: String,
    pub text: TextState,
    /// The path along which a group is blended.
    pub blend_spine: Option<u128>,
    /// What is set for this instance where the node is an instance of a symbol.
    pub symbol: Option<SymbolOverrides>,
}

/// The name of a kind.
pub open spec fn kind_text(kind: NodeKind) -> Seq<char> {
    match kind {
        NodeKind::Path => "path"@,
        NodeKind::Group => "group"@,
        NodeKind::Text => "text"@,
        NodeKind::Raster => "raster"@,
    }
}

pub fn kind_name(kind: NodeKind) -> (r: &'static str)
    ensures
        r@ == kind_text(kind),
{
    match kind {
        NodeKind::Path => "path",
        NodeKind::Group => "group",
        NodeKind::Text => "text",
        NodeKind::Raster => "raster",
    }
}

/// The first node with the id `id`.
pub open spec fn is_node_at(nodes: Seq<Node>, id: u128, k: int) -> bool {
    0 <= k < nodes.len() && nodes[k].id == id && forall|j: int|
        0 <= j < k ==> (#[trigger] nodes[j]).id != id
}

/// There is a node with the id `id`.
pub open spec fn has_node(nodes: Seq<Node>, id: u128) -> bool {
    exists|k: int| 0 <= k < nodes.len() && (#[trigger] nodes[k]).id == id
}

/// The position of the first node with the id `id`.
pub open spec fn position_of(nodes: Seq<Node>, id: u128) -> int {
    choose|k: int| is_node_at(nodes, id, k)
}

/// A node stands at one position.
pub proof fn lemma_position(nodes: Seq<Node>, id: u128, k: int)
    requires
        is_node_at(nodes, id, k),
    ensures
        position_of(nodes, id) == k,
        has_node(nodes, id),
{
    let j = position_of(nodes, id);
    assert(is_node_at(nodes, id, j));
    assert(nodes[k].id == id);
    assert(nodes[j].id == id);
}

/// The node with the id `id`.
pub fn find_node(nodes: &Vec<Node>, id: u128) -> (r: Option<usize>)
    ensures
        match r {
            Some(k) => is_node_at(nodes@, id, k as int) && has_node(nodes@, id) && position_of(
                nodes@,
                id,
            ) == k,
            None => !has_node(nodes@, id),
        },
{
    let mut i: usize = 0;
    while i < nodes.len()
        invariant
            i <= nodes.len(),
            forall|j: int| 0 <= j < i ==> (#[trigger] nodes@[j]).id != id,
        decreases nodes.len() - i,
    {
        if nodes[i].id == id {
            proof {
                lemma_position(nodes@, id, i as int);
            }
            return Some(i);
        }
        i += 1;
    }
    None
}

/// The id of the first node that is called `name`.
pub open spec fn named_node(nodes: Seq<Node>, name: Seq<char>) -> Option<u128>
    decreases nodes.len(),
{
    if nodes.len() == 0 {
        None
    } else if nodes[0].name@ == name {
        Some(nodes[0].id)
    } else {
        named_node(nodes.skip(1), name)
    }
}

/// The id of the first node that is called `name`.
pub fn find_node_by_name(nodes: &Vec<Node>, name: &str) -> (r: Option<u128>)
    ensures
        r == named_node(nodes@, name@),
{
    let mut i: usize = 0;
    assert(nodes@.skip(0) =~= nodes@);
    while i < nodes.len()
        invariant
            i <= nodes.len(),
            named_node(nodes@, name@) == named_node(nodes@.skip(i as int), name@),
        decreases nodes.len() - i,
    {
        assert(nodes@.skip(i as int)[0] == nodes@[i as int]);
        assert(nodes@.skip(i as int).skip(1) =~= nodes@.skip(i + 1));
        if same_text(nodes[i].name.as_str(), name) {
            return Some(nodes[i].id);
        }
        i += 1;
    }
    None
}

/// The lower-case hex digit `n`.
pub open spec fn hex_char(n: nat) -> char {
    if n < 10 {
        (48 + n) as char
    } else {
        (87 + n) as char
    }
}

/// The last `n` hex digits of `id`.
pub open spec fn hex_digits(id: nat, n: nat) -> Seq<char>
    decreases n,
{
    if n == 0 {
        Seq::empty()
    } else {
        hex_digits(id / 16, (n - 1) as nat).push(hex_char(id % 16))
    }
}

/// An id as it is written: 32 hex digits in five groups.
pub open spec fn id_text(id: u128) -> Seq<char> {
    let h = hex_digits(id as nat, 32);
    h.subrange(0, 8) + "-"@ + h.subrange(8, 12) + "-"@ + h.subrange(12, 16) + "-"@ + h.subrange(
        16,
        20,
    ) + "-"@ + h.subrange(20, 32)
}

/// The id that `uuid::Uuid::parse_str` reads in a text.
pub uninterp spec fn parsed_uuid(text: Seq<char>) -> Option<u128>;

/// `uuid::Uuid::parse_str`: reads an id in any of the written forms of a UUID.
/// What the forms are is not stated, but the form of 32 lower-case hex digits in
/// five groups is read back as the id that it writes.
#[verifier::external_body]
pub(crate) fn parse_uuid(text: &str) -> (r: Option<u128>)
    ensures
        r == parsed_uuid(text@),
        forall|id: u128| text@ == #[trigger] id_text(id) ==> r == Some(id),
{
    uuid::Uuid::parse_str(text).ok().map(|id| id.as_u128())
}

proof fn lemma_hex_digits_len(id: nat, n: nat)
    ensures
        hex_digits(id, n).len() == n,
    decreases n,
{
    if n > 0 {
        lemma_hex_digits_len(id / 16, (n - 1) as nat);
    }
}

fn digits_of(id: u128, n: u32) -> (r: Vec<char>)
    ensures
        r@ == hex_digits(id as nat, n as nat),
    decreases n,
{
    if n == 0 {
        let r: Vec<char> = Vec::new();
        assert(r@ =~= Seq::<char>::empty());
        return r;
    }
    let mut r = digits_of(id / 16, n - 1);
    let d = (id % 16) as u8;
    r.push(
        (if d < 10 {
            48u8 + d
        } else {
            87u8 + d
        }) as char,
    );
    r
}

/// Appends the written form of `id`.
pub fn push_id(out: &mut Vec<char>, id: u128)
    ensures
        final(out)@ == old(out)@ + id_text(id),
{
    let ghost start = out@;
    let h = digits_of(id, 32);
    proof {
        lemma_hex_digits_len(id as nat, 32);
        reveal_strlit("-");
    }
    let mut i: usize = 0;
    while i < 32
        invariant
            i <= 32,
            h.len() == 32,
            "-"@ == seq!['-'],
            out@ == start + dashed(h@, i as nat),
        decreases 32 - i,
    {
        if i == 8 || i == 12 || i == 16 || i == 20 {
            out.push('-');
        }
        out.push(h[i]);
        i += 1;
        assert(out@ =~= start + dashed(h@, i as nat));
    }
    proof {
        lemma_dashed(h@);
    }
}

/// The first `n` digits with the dashes between the groups.
spec fn dashed(h: Seq<char>, n: nat) -> Seq<char>
    decreases n,
{
    if n == 0 {
        Seq::empty()
    } else {
        let before = dashed(h, (n - 1) as nat);
        let i = n - 1;
        if i == 8 || i == 12 || i == 16 || i == 20 {
            before.push('-').push(h[i])
        } else {
            before.push(h[i])
        }
    }
}

proof fn lemma_dashed(h: Seq<char>)
    requires
        h.len() == 32,
        "-"@ == seq!['-'],
    ensures
        dashed(h, 32) == h.subrange(0, 8) + "-"@ + h.subrange(8, 12) + "-"@ + h.subrange(12, 16)
            + "-"@ + h.subrange(16, 20) + "-"@ + h.subrange(20, 32),
{
    lemma_dashed_group(h, 0, 8);
    lemma_dashed_group(h, 8, 12);
    lemma_dashed_group(h, 12, 16);
    lemma_dashed_group(h, 16, 20);
    lemma_dashed_group(h, 20, 32);
    assert(dashed(h, 0) =~= Seq::<char>::empty());
    assert(dashed(h, 8) =~= h.subrange(0, 8));
}

/// A group of digits adds itself, behind a dash unless it is the first.
proof fn lemma_dashed_group(h: Seq<char>, a: nat, b: nat)
    requires
        h.len() == 32,
        a < b <= 32,
        (a == 0 && b <= 8) || (a == 8 && b <= 12) || (a == 12 && b <= 16) || (a == 16 && b <= 20)
            || a == 20,
    ensures
        dashed(h, b) == dashed(h, a) + (if a == 0 {
            h.subrange(a as int, b as int)
        } else {
            seq!['-'] + h.subrange(a as int, b as int)
        }),
    decreases b,
{
    let i = b - 1;
    if b == a + 1 {
        assert(h.subrange(a as int, b as int) =~= seq![h[a as int]]);
        assert(dashed(h, b) =~= dashed(h, a) + (if a == 0 {
            h.subrange(a as int, b as int)
        } else {
            seq!['-'] + h.subrange(a as int, b as int)
        }));
    } else {
        lemma_dashed_group(h, a, i as nat);
        assert(h.subrange(a as int, b as int) =~= h.subrange(a as int, i).push(h[i]));
        assert(dashed(h, b) =~= dashed(h, a) + (if a == 0 {
            h.subrange(a as int, b as int)
        } else {
            seq!['-'] + h.subrange(a as int, b as int)
        }));
    }
}

/// The node that a caller names: by its id, or else by its name. An id need not
/// be the id of a node.
pub open spec fn named_id(nodes: Seq<Node>, text: Seq<char>) -> Option<u128> {
    match parsed_uuid(text) {
        Some(id) => Some(id),
        None => named_node(nodes, text),
    }
}

/// The node that a caller names. A written id names its node whatever the nodes
/// are called.
pub fn resolve_node_id(nodes: &Vec<Node>, text: &str) -> (r: Option<u128>)
    ensures
        r == named_id(nodes@, text@),
        forall|id: u128| text@ == #[trigger] id_text(id) ==> r == Some(id),
{
    match parse_uuid(text) {
        Some(id) => Some(id),
        None => find_node_by_name(nodes, text),
    }
}

/// The nodes that a list of names stands for; what names nothing is left out.
pub open spec fn named_ids(nodes: Seq<Node>, names: Seq<Seq<char>>) -> Seq<u128>
    decreases names.len(),
{
    if names.len() == 0 {
        Seq::empty()
    } else {
        let before = named_ids(nodes, names.drop_last());
        match named_id(nodes, names.last()) {
            Some(id) => before.push(id),
            None => before,
        }
    }
}

/// The nodes that a list of names stands for.
pub fn resolve_node_ids(nodes: &Vec<Node>, names: &Vec<String>) -> (r: Vec<u128>)
    ensures
        r@ == named_ids(nodes@, texts(names@)),
        r.len() <= names.len(),
{
    let ghost all = texts(names@);
    let mut out: Vec<u128> = Vec::new();
    let mut i: usize = 0;
    assert(all.take(0) =~= Seq::<Seq<char>>::empty());
    while i < names.len()
        invariant
            i <= names.len(),
            all == texts(names@),
            out.len() <= i,
            out@ == named_ids(nodes@, all.take(i as int)),
        decreases names.len() - i,
    {
        proof {
            assert(all.take(i + 1).drop_last() =~= all.take(i as int));
            assert(all.take(i + 1).last() == names@[i as int]@);
        }
        if let Some(id) = resolve_node_id(nodes, names[i].as_str()) {
            out.push(id);
        }
        i += 1;
    }
    assert(all.take(all.len() as int) =~= all);
    out
}

/// The nodes that a tool works on: those that are named, or the selected ones
/// where none is.
pub open spec fn targets(nodes: Seq<Node>, selection: Seq<u128>, names: Seq<Seq<char>>) -> Seq<
    u128,
> {
    if names.len() == 0 {
        selection
    } else {
        named_ids(nodes, names)
    }
}

/// A copy of a list of ids.
pub fn copy_ids(v: &Vec<u128>) -> (r: Vec<u128>)
    ensures
        r@ == v@,
{
    let mut out: Vec<u128> = Vec::new();
    let mut i: usize = 0;
    while i < v.len()
        invariant
            i <= v.len(),
            out@ == v@.take(i as int),
        decreases v.len() - i,
    {
        out.push(v[i]);
        i += 1;
        assert(out@ =~= v@.take(i as int));
    }
    assert(v@.take(v@.len() as int) =~= v@);
    out
}

/// The nodes that a tool works on.
pub fn resolve_targets(nodes: &Vec<Node>, selection: &Vec<u128>, names: &Vec<String>) -> (r: Vec<
    u128,
>)
    ensures
        r@ == targets(nodes@, selection@, texts(names@)),
        r.len() <= names.len() + selection.len(),
{
    if names.len() == 0 {
        copy_ids(selection)
    } else {
        resolve_node_ids(nodes, names)
    }
}

/// The positions of the nodes with these ids; of paths only where `paths` is set.
pub open spec fn found_positions(nodes: Seq<Node>, ids: Seq<u128>, paths: bool) -> Seq<usize>
    decreases ids.len(),
{
    if ids.len() == 0 {
        Seq::empty()
    } else {
        let before = found_positions(nodes, ids.drop_last(), paths);
        let k = position_of(nodes, ids.last());
        if has_node(nodes, ids.last()) && (paths ==> nodes[k].kind == NodeKind::Path) {
            before.push(k as usize)
        } else {
            before
        }
    }
}

/// The positions of the nodes with these ids; of paths only where `paths` is set.
pub fn positions_found(nodes: &Vec<Node>, ids: &Vec<u128>, paths: bool) -> (r: Vec<usize>)
    ensures
        r@ == found_positions(nodes@, ids@, paths),
        r.len() <= ids.len(),
        forall|i: int| 0 <= i < r.len() ==> (#[trigger] r@[i]) < nodes.len(),
        paths ==> forall|i: int|
            0 <= i < r.len() ==> nodes@[(#[trigger] r@[i]) as int].kind == NodeKind::Path,
{
    let mut out: Vec<usize> = Vec::new();
    let mut i: usize = 0;
    assert(ids@.take(0) =~= Seq::<u128>::empty());
    while i < ids.len()
        invariant
            i <= ids.len(),
            out.len() <= i,
            out@ == found_positions(nodes@, ids@.take(i as int), paths),
            forall|i: int| 0 <= i < out.len() ==> (#[trigger] out@[i]) < nodes.len(),
            paths ==> forall|i: int|
                0 <= i < out.len() ==> nodes@[(#[trigger] out@[i]) as int].kind == NodeKind::Path,
        decreases ids.len() - i,
    {
        proof {
            assert(ids@.take(i + 1).drop_last() =~= ids@.take(i as int));
            assert(ids@.take(i + 1).last() == ids@[i as int]);
        }
        if let Some(k) = find_node(nodes, ids[i]) {
            if !paths || nodes[k].kind == NodeKind::Path {
                out.push(k);
            }
        }
        i += 1;
    }
    assert(ids@.take(ids@.len() as int) =~= ids@);
    out
}

/// The first id that no node has.
pub open spec fn first_missing(nodes: Seq<Node>, ids: Seq<u128>) -> Option<u128>
    decreases ids.len(),
{
    if ids.len() == 0 {
        None
    } else {
        match first_missing(nodes, ids.drop_last()) {
            Some(id) => Some(id),
            None => if has_node(nodes, ids.last()) {
                None
            } else {
                Some(ids.last())
            },
        }
    }
}

/// A first missing id stays the first one in a longer list.
pub proof fn lemma_first_missing(nodes: Seq<Node>, ids: Seq<u128>, i: int)
    requires
        0 <= i <= ids.len(),
        first_missing(nodes, ids.take(i)) is Some,
    ensures
        first_missing(nodes, ids) == first_missing(nodes, ids.take(i)),
    decreases ids.len() - i,
{
    if i == ids.len() {
        assert(ids.take(i) =~= ids);
    } else {
        assert(ids.take(i + 1).drop_last() =~= ids.take(i));
        lemma_first_missing(nodes, ids, i + 1);
    }
}

/// The positions of the nodes that are named, of paths only where `paths` is set.
/// What names nothing is left out.
pub open spec fn named_positions(nodes: Seq<Node>, names: Seq<Seq<char>>, paths: bool) -> Seq<usize>
    decreases names.len(),
{
    if names.len() == 0 {
        Seq::empty()
    } else {
        let before = named_positions(nodes, names.drop_last(), paths);
        match named_id(nodes, names.last()) {
            Some(id) => {
                let k = position_of(nodes, id);
                if has_node(nodes, id) && (paths ==> nodes[k].kind == NodeKind::Path) {
                    before.push(k as usize)
                } else {
                    before
                }
            },
            None => before,
        }
    }
}

/// The positions of the nodes that are named, of paths only where `paths` is set.
pub fn find_named(nodes: &Vec<Node>, names: &Vec<String>, paths: bool) -> (r: Vec<usize>)
    ensures
        r@ == named_positions(nodes@, texts(names@), paths),
        r.len() <= names.len(),
        forall|i: int| 0 <= i < r.len() ==> (#[trigger] r@[i]) < nodes.len(),
        paths ==> forall|i: int|
            0 <= i < r.len() ==> nodes@[(#[trigger] r@[i]) as int].kind == NodeKind::Path,
{
    let ghost all = texts(names@);
    let mut out: Vec<usize> = Vec::new();
    let mut i: usize = 0;
    assert(all.take(0) =~= Seq::<Seq<char>>::empty());
    while i < names.len()
        invariant
            i <= names.len(),
            out.len() <= i,
            all == texts(names@),
            out@ == named_positions(nodes@, all.take(i as int), paths),
            forall|i: int| 0 <= i < out.len() ==> (#[trigger] out@[i]) < nodes.len(),
            paths ==> forall|i: int|
                0 <= i < out.len() ==> nodes@[(#[trigger] out@[i]) as int].kind == NodeKind::Path,
        decreases names.len() - i,
    {
        proof {
            assert(all.take(i + 1).drop_last() =~= all.take(i as int));
            assert(all.take(i + 1).last() == names@[i as int]@);
        }
        if let Some(id) = resolve_node_id(nodes, names[i].as_str()) {
            if let Some(k) = find_node(nodes, id) {
                if !paths || nodes[k].kind == NodeKind::Path {
                    out.push(k);
                }
            }
        }
        i += 1;
    }
    assert(all.take(all.len() as int) =~= all);
    out
}

/// How many entries of the history changes make that are made at once.
pub open spec fn entries_for(changed: nat) -> nat {
    if changed > 0 {
        1
    } else {
        0
    }
}

pub fn one_entry(changed: usize) -> (r: usize)
    ensures
        r == entries_for(changed as nat),
{
    if changed > 0 {
        1
    } else {
        0
    }
}

/// What a text built from pieces and numbers says.
pub open spec fn counted(before: Seq<char>, n: nat, behind: Seq<char>) -> Seq<char> {
    before + crate::text::decimal_text(n) + behind
}

/// A text with a number in it.
pub fn count_text(before: &str, n: usize, behind: &str) -> (r: String)
    ensures
        r@ == counted(before@, n as nat, behind@),
{
    let mut v = chars_of(before);
    push_all(&mut v, &number_text(n as u64));
    push_str(&mut v, behind);
    text_of(&v)
}

/// A text with a name in it.
pub fn around_text(before: &str, middle: &str, behind: &str) -> (r: String)
    ensures
        r@ == before@ + middle@ + behind@,
{
    let mut v = chars_of(before);
    push_str(&mut v, middle);
    push_str(&mut v, behind);
    text_of(&v)
}

/// A text with an id in it.
pub fn around_id(before: &str, id: u128, behind: &str) -> (r: String)
    ensures
        r@ == before@ + id_text(id) + behind@,
{
    let mut v = chars_of(before);
    push_id(&mut v, id);
    push_str(&mut v, behind);
    text_of(&v)
}

} // verus!
