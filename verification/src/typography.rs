//! Setting and clearing the attributes of texts.
use crate::double::Double;
use crate::reports::{choose_text, text_or};
use crate::scene::{
    around_text, find_node, has_node, id_text, named_id, position_of, resolve_node_id, Node,
    NodeKind, ScriptPosition, TextAlign,
};
use crate::selection::{lowercase, lowered};
use crate::text::{
    chars_of, decimal_text, holds_text, join, join_words, number_text, push_all, push_copy,
    push_str, same_text, text_of, texts,
};
use vstd::prelude::*;

verus! {

/// A text that is changed, what its attribute becomes, and what is said.
#[derive(Debug)]
pub struct Planned<T> {
    pub position: usize,
    pub value: T,
    pub message: String,
}

/// A node that is changed, and what its attribute becomes.
#[derive(Debug)]
pub struct Targeted<T> {
    pub position: usize,
    pub value: T,
}

/// A label and a name in quotes.
pub open spec fn quoted_name(label: Seq<char>, name: Seq<char>, behind: Seq<char>) -> Seq<char> {
    label + " '"@ + name + "'"@ + behind
}

pub fn quoted_text(label: &str, name: &str, behind: &str) -> (r: String)
    ensures
        r@ == quoted_name(label@, name@, behind@),
{
    let mut v = chars_of(label);
    push_str(&mut v, " '");
    push_str(&mut v, name);
    push_str(&mut v, "'");
    push_str(&mut v, behind);
    text_of(&v)
}

/// The position of the node that `name` stands for.
pub open spec fn target(nodes: Seq<Node>, name: Seq<char>) -> int {
    position_of(nodes, named_id(nodes, name)->0)
}

/// `name` stands for a node that exists.
pub open spec fn is_target(nodes: Seq<Node>, name: Seq<char>) -> bool {
    named_id(nodes, name) matches Some(id) && has_node(nodes, id)
}

/// Why `name` does not stand for a text.
pub open spec fn text_error(nodes: Seq<Node>, label: Seq<char>, name: Seq<char>) -> Option<
    Seq<char>,
> {
    if !is_target(nodes, name) {
        Some(quoted_name(label, name, " not found."@))
    } else if nodes[target(nodes, name)].kind != NodeKind::Text {
        Some(quoted_name("Node"@, name, " is not a text node."@))
    } else {
        None
    }
}

/// Finds the text that `name` stands for.
pub fn find_text(nodes: &Vec<Node>, label: &str, name: &str) -> (r: Result<usize, String>)
    ensures
        match r {
            Ok(k) => text_error(nodes@, label@, name@) is None && k == target(nodes@, name@) && k
                < nodes.len(),
            Err(e) => text_error(nodes@, label@, name@) == Some(e@),
        },
{
    let missing = quoted_text(label, name, " not found.");
    match resolve_node_id(nodes, name) {
        None => Err(missing),
        Some(id) => match find_node(nodes, id) {
            None => Err(missing),
            Some(k) => if nodes[k].kind == NodeKind::Text {
                Ok(k)
            } else {
                Err(quoted_text("Node", name, " is not a text node."))
            },
        },
    }
}

/// The numbers that set a text above or below its line.
#[derive(Debug, Clone, Copy, PartialEq, Eq, Structural)]
pub struct CharacterMetrics {
    pub baseline_shift: Double,
    pub script_position: ScriptPosition,
}

/// A script position that a caller wrote, with what it stands for where it is
/// one.
#[derive(Debug)]
pub struct ScriptArg {
    pub text: String,
    pub position: Option<ScriptPosition>,
}

/// Why character metrics are not set.
pub open spec fn metrics_error(
    nodes: Seq<Node>,
    name: Seq<char>,
    baseline: Option<Double>,
    script: Option<ScriptArg>,
) -> Option<Seq<char>> {
    if script matches Some(s) && s.position is None {
        Some(
            "Unknown script_position '"@ + script->0.text@
                + "'. Valid values: normal, superscript, subscript."@,
        )
    } else if baseline is None && script is None {
        Some("Nothing to change: provide baseline_shift and/or script_position."@)
    } else {
        text_error(nodes, "Node"@, name)
    }
}

/// Sets the baseline shift, the script position, or both.
pub fn set_character_metrics(
    nodes: &Vec<Node>,
    name: &str,
    baseline_shift: Option<Double>,
    script: &Option<ScriptArg>,
) -> (r: Result<Targeted<CharacterMetrics>, String>)
    ensures
        match r {
            Err(e) => metrics_error(nodes@, name@, baseline_shift, *script) == Some(e@),
            Ok(t) => {
                let old = nodes@[t.position as int].text;
                &&& metrics_error(nodes@, name@, baseline_shift, *script) is None
                &&& t.position == target(nodes@, name@)
                &&& t.value.baseline_shift == (match baseline_shift {
                    Some(b) => b,
                    None => old.baseline_shift,
                })
                &&& t.value.script_position == (match script {
                    Some(s) => s.position->0,
                    None => old.script_position,
                })
            },
        },
{
    if let Some(s) = script {
        if s.position.is_none() {
            return Err(
                around_text(
                    "Unknown script_position '",
                    s.text.as_str(),
                    "'. Valid values: normal, superscript, subscript.",
                ),
            );
        }
    }
    if baseline_shift.is_none() && script.is_none() {
        return Err(
            "Nothing to change: provide baseline_shift and/or script_position.".to_owned(),
        );
    }
    match find_text(nodes, "Node", name) {
        Err(e) => Err(e),
        Ok(k) => {
            let baseline = match baseline_shift {
                Some(b) => b,
                None => nodes[k].text.baseline_shift,
            };
            let position = match script {
                Some(s) => match s.position {
                    Some(p) => p,
                    None => nodes[k].text.script_position,
                },
                None => nodes[k].text.script_position,
            };
            Ok(
                Targeted {
                    position: k,
                    value: CharacterMetrics { baseline_shift: baseline, script_position: position },
                },
            )
        },
    }
}

/// The slope of a font.
#[derive(Debug, Clone, Copy, PartialEq, Eq, Structural)]
pub enum FontStyle {
    Normal,
    Italic,
    Oblique,
}

/// The slope that a word stands for, whatever its case; an unknown word stands
/// for none.
pub open spec fn style_of(word: Seq<char>) -> FontStyle {
    if lowered(word) == "italic"@ {
        FontStyle::Italic
    } else if lowered(word) == "oblique"@ {
        FontStyle::Oblique
    } else {
        FontStyle::Normal
    }
}

/// Sets the slope of a text.
pub fn set_font_style(nodes: &Vec<Node>, name: &str, style: &str) -> (r: Result<
    Planned<FontStyle>,
    String,
>)
    ensures
        match r {
            Err(e) => text_error(nodes@, "Node"@, name@) == Some(e@),
            Ok(p) => text_error(nodes@, "Node"@, name@) is None && p.position == target(
                nodes@,
                name@,
            ) && p.value == style_of(style@) && p.message@ == "Set font style to '"@ + style@
                + quoted_name("' on node"@, name@, "."@),
        },
{
    match find_text(nodes, "Node", name) {
        Err(e) => Err(e),
        Ok(k) => {
            let low = lowercase(style);
            let value = if same_text(low.as_str(), "italic") {
                FontStyle::Italic
            } else if same_text(low.as_str(), "oblique") {
                FontStyle::Oblique
            } else {
                FontStyle::Normal
            };
            let behind = quoted_text("' on node", name, ".");
            Ok(
                Planned {
                    position: k,
                    value,
                    message: around_text("Set font style to '", style, behind.as_str()),
                },
            )
        },
    }
}

/// A weight kept from 100 to 900.
pub open spec fn kept_weight(weight: u16) -> u16 {
    if weight < 100 {
        100
    } else if weight > 900 {
        900
    } else {
        weight
    }
}

/// Sets the weight of a text.
pub fn set_font_weight(nodes: &Vec<Node>, name: &str, weight: u16) -> (r: Result<
    Planned<u16>,
    String,
>)
    ensures
        match r {
            Err(e) => text_error(nodes@, "Node"@, name@) == Some(e@),
            Ok(p) => text_error(nodes@, "Node"@, name@) is None && p.position == target(
                nodes@,
                name@,
            ) && p.value == kept_weight(weight) && p.message@ == "Set font weight to "@
                + decimal_text(p.value as nat) + quoted_name(" on node"@, name@, "."@),
        },
{
    match find_text(nodes, "Node", name) {
        Err(e) => Err(e),
        Ok(k) => {
            let value: u16 = if weight < 100 {
                100
            } else if weight > 900 {
                900
            } else {
                weight
            };
            let mut v = chars_of("Set font weight to ");
            push_all(&mut v, &number_text(value as u64));
            let behind = quoted_text(" on node", name, ".");
            push_str(&mut v, behind.as_str());
            Ok(Planned { position: k, value, message: text_of(&v) })
        },
    }
}

/// The decoration that a word stands for, whatever its case: nothing for `none`
/// and for no word; `None` for a word that stands for none.
pub open spec fn decoration_of(word: Seq<char>) -> Option<Seq<char>> {
    let low = lowered(word);
    if low == ""@ || low == "none"@ {
        Some(Seq::empty())
    } else if low == "underline"@ || low == "line-through"@ || low == "overline"@ {
        Some(low)
    } else {
        None
    }
}

/// Why a decoration is not set.
pub open spec fn decoration_error(nodes: Seq<Node>, name: Seq<char>, word: Seq<char>) -> Option<
    Seq<char>,
> {
    if decoration_of(word) is None {
        Some(
            "Unknown decoration '"@ + lowered(word)
                + "'. Valid values: none, underline, line-through, overline."@,
        )
    } else {
        text_error(nodes, "Node"@, name)
    }
}

/// Sets the decoration of a text.
pub fn set_text_decoration(nodes: &Vec<Node>, name: &str, decoration: &str) -> (r: Result<
    Planned<String>,
    String,
>)
    ensures
        match r {
            Err(e) => decoration_error(nodes@, name@, decoration@) == Some(e@),
            Ok(p) => {
                &&& decoration_error(nodes@, name@, decoration@) is None
                &&& p.position == target(nodes@, name@)
                &&& decoration_of(decoration@) == Some(p.value@)
                &&& p.message@ == quoted_name("Text decoration on"@, name@, " set to '"@) + (
                if p.value@.len() == 0 {
                    "none"@
                } else {
                    p.value@
                }) + "'."@
            },
        },
{
    proof {
        reveal_strlit("");
        reveal_strlit("underline");
        reveal_strlit("line-through");
        reveal_strlit("overline");
    }
    let low = lowercase(decoration);
    let word = low.as_str();
    let value = if same_text(word, "") || same_text(word, "none") {
        String::new()
    } else if same_text(word, "underline") || same_text(word, "line-through") || same_text(
        word,
        "overline",
    ) {
        word.to_owned()
    } else {
        return Err(
            around_text(
                "Unknown decoration '",
                word,
                "'. Valid values: none, underline, line-through, overline.",
            ),
        );
    };
    match find_text(nodes, "Node", name) {
        Err(e) => Err(e),
        Ok(k) => {
            let head = quoted_text("Text decoration on", name, " set to '");
            let shown = if chars_of(value.as_str()).len() == 0 {
                "none"
            } else {
                value.as_str()
            };
            let message = around_text(head.as_str(), shown, "'.");
            assert(value@ =~= decoration_of(decoration@)->0);
            Ok(Planned { position: k, value, message })
        },
    }
}

/// Sets whether a text runs vertically.
pub fn set_text_direction(nodes: &Vec<Node>, name: &str, vertical: bool) -> (r: Result<
    Planned<bool>,
    String,
>)
    ensures
        match r {
            Err(e) => text_error(nodes@, "Node"@, name@) == Some(e@),
            Ok(p) => text_error(nodes@, "Node"@, name@) is None && p.position == target(
                nodes@,
                name@,
            ) && p.value == vertical && p.message@ == quoted_name(
                "Text node"@,
                name@,
                if vertical {
                    " set to vertical layout."@
                } else {
                    " set to horizontal layout."@
                },
            ),
        },
{
    match find_text(nodes, "Node", name) {
        Err(e) => Err(e),
        Ok(k) => Ok(
            Planned {
                position: k,
                value: vertical,
                message: quoted_text(
                    "Text node",
                    name,
                    if vertical {
                        " set to vertical layout."
                    } else {
                        " set to horizontal layout."
                    },
                ),
            },
        ),
    }
}

/// Why a text does not flow inside an area: either name stands for nothing, both
/// stand for the same node, or one of them is not of its kind.
pub open spec fn area_error(nodes: Seq<Node>, text: Seq<char>, area: Seq<char>) -> Option<
    Seq<char>,
> {
    if named_id(nodes, text) is None {
        Some(quoted_name("Text node"@, text, " not found."@))
    } else if named_id(nodes, area) is None {
        Some(quoted_name("Area path"@, area, " not found."@))
    } else if named_id(nodes, text) == named_id(nodes, area) {
        Some("Text node and area path must be different nodes."@)
    } else if text_error(nodes, "Text node"@, text) is Some {
        text_error(nodes, "Text node"@, text)
    } else if !is_target(nodes, area) {
        Some(quoted_name("Area path"@, area, " not found."@))
    } else if nodes[target(nodes, area)].kind != NodeKind::Path {
        Some(quoted_name("Node"@, area, " is not a path node."@))
    } else {
        None
    }
}

/// Lets a text flow inside a path.
pub fn set_text_area(nodes: &Vec<Node>, text: &str, area: &str) -> (r: Result<
    Planned<u128>,
    String,
>)
    ensures
        match r {
            Err(e) => area_error(nodes@, text@, area@) == Some(e@),
            Ok(p) => {
                &&& area_error(nodes@, text@, area@) is None
                &&& p.position == target(nodes@, text@)
                &&& named_id(nodes@, area@) == Some(p.value)
                &&& p.message@ == quoted_name("Text node"@, text@, " now flows inside area '"@)
                    + nodes@[target(nodes@, area@)].name@ + "'."@
            },
        },
{
    if resolve_node_id(nodes, text).is_none() {
        return Err(quoted_text("Text node", text, " not found."));
    }
    let area_id = match resolve_node_id(nodes, area) {
        None => {
            return Err(quoted_text("Area path", area, " not found."));
        },
        Some(id) => id,
    };
    let same = match resolve_node_id(nodes, text) {
        Some(id) => id == area_id,
        None => false,
    };
    if same {
        return Err("Text node and area path must be different nodes.".to_owned());
    }
    let k: usize = match find_text(nodes, "Text node", text) {
        Err(e) => {
            return Err(e);
        },
        Ok(k) => k,
    };
    match find_node(nodes, area_id) {
        None => Err(quoted_text("Area path", area, " not found.")),
        Some(a) => if nodes[a].kind != NodeKind::Path {
            Err(quoted_text("Node", area, " is not a path node."))
        } else {
            let head = quoted_text("Text node", text, " now flows inside area '");
            Ok(
                Planned {
                    position: k,
                    value: area_id,
                    message: around_text(head.as_str(), nodes[a].name.as_str(), "'."),
                },
            )
        },
    }
}

/// Why a text does not follow a path.
pub open spec fn spine_error(nodes: Seq<Node>, text: Seq<char>, path: Seq<char>) -> Option<
    Seq<char>,
> {
    if named_id(nodes, text) is None {
        Some(quoted_name("Text node"@, text, " not found."@))
    } else if named_id(nodes, path) is None {
        Some(quoted_name("Path node"@, path, " not found."@))
    } else if text_error(nodes, "Text node"@, text) is Some {
        text_error(nodes, "Text node"@, text)
    } else if named_id(nodes, text) == named_id(nodes, path) {
        Some("Text node and path node must be different nodes."@)
    } else if !is_target(nodes, path) {
        Some(quoted_name("Path node"@, path, " not found."@))
    } else if nodes[target(nodes, path)].kind != NodeKind::Path {
        Some(quoted_name("Node"@, path, " is not a path node."@))
    } else {
        None
    }
}

/// Lets a text follow a path, from an offset on.
pub fn set_text_path(nodes: &Vec<Node>, text: &str, path: &str, offset: Double) -> (r: Result<
    Targeted<(u128, Double)>,
    String,
>)
    ensures
        match r {
            Err(e) => spine_error(nodes@, text@, path@) == Some(e@),
            Ok(t) => spine_error(nodes@, text@, path@) is None && t.position == target(
                nodes@,
                text@,
            ) && named_id(nodes@, path@) == Some(t.value.0) && t.value.1 == offset,
        },
{
    let text_id = match resolve_node_id(nodes, text) {
        None => {
            return Err(quoted_text("Text node", text, " not found."));
        },
        Some(id) => id,
    };
    let path_id = match resolve_node_id(nodes, path) {
        None => {
            return Err(quoted_text("Path node", path, " not found."));
        },
        Some(id) => id,
    };
    let k: usize = match find_text(nodes, "Text node", text) {
        Err(e) => {
            return Err(e);
        },
        Ok(k) => k,
    };
    if text_id == path_id {
        return Err("Text node and path node must be different nodes.".to_owned());
    }
    match find_node(nodes, path_id) {
        None => Err(quoted_text("Path node", path, " not found.")),
        Some(a) => if nodes[a].kind != NodeKind::Path {
            Err(quoted_text("Node", path, " is not a path node."))
        } else {
            Ok(Targeted { position: k, value: (path_id, offset) })
        },
    }
}

/// Why an area is not removed.
pub open spec fn clear_area_error(nodes: Seq<Node>, text: Seq<char>) -> Option<Seq<char>> {
    match text_error(nodes, "Text node"@, text) {
        Some(e) => Some(e),
        None => if nodes[target(nodes, text)].text.area_path is None {
            Some(quoted_name("Text node"@, text, " does not have an area path."@))
        } else {
            None
        },
    }
}

/// Removes the area of a text.
pub fn clear_text_area(nodes: &Vec<Node>, text: &str) -> (r: Result<Planned<()>, String>)
    ensures
        match r {
            Err(e) => clear_area_error(nodes@, text@) == Some(e@),
            Ok(p) => clear_area_error(nodes@, text@) is None && p.position == target(nodes@, text@)
                && p.message@ == quoted_name(
                "Removed area boundary from text node"@,
                text@,
                "."@,
            ),
        },
{
    match find_text(nodes, "Text node", text) {
        Err(e) => Err(e),
        Ok(k) => if nodes[k].text.area_path.is_none() {
            Err(quoted_text("Text node", text, " does not have an area path."))
        } else {
            Ok(
                Planned {
                    position: k,
                    value: (),
                    message: quoted_text("Removed area boundary from text node", text, "."),
                },
            )
        },
    }
}

/// Why a path is not removed from a text.
pub open spec fn clear_path_error(nodes: Seq<Node>, text: Seq<char>) -> Option<Seq<char>> {
    match text_error(nodes, "Text node"@, text) {
        Some(e) => Some(e),
        None => if nodes[target(nodes, text)].text.path_spine is None {
            Some(quoted_name("Text node"@, text, " is not on a path."@))
        } else {
            None
        },
    }
}

/// Removes the path that a text follows; its offset becomes zero.
pub fn clear_text_path(nodes: &Vec<Node>, text: &str) -> (r: Result<Planned<Double>, String>)
    ensures
        match r {
            Err(e) => clear_path_error(nodes@, text@) == Some(e@),
            Ok(p) => clear_path_error(nodes@, text@) is None && p.position == target(nodes@, text@)
                && p.value == (Double { bits: 0 }) && p.message@ == quoted_name(
                "Removed path spine from text node"@,
                text@,
                "."@,
            ),
        },
{
    match find_text(nodes, "Text node", text) {
        Err(e) => Err(e),
        Ok(k) => if nodes[k].text.path_spine.is_none() {
            Err(quoted_text("Text node", text, " is not on a path."))
        } else {
            Ok(
                Planned {
                    position: k,
                    value: Double { bits: 0 },
                    message: quoted_text("Removed path spine from text node", text, "."),
                },
            )
        },
    }
}

/// The spacing of paragraphs.
#[derive(Debug, Clone, Copy, PartialEq, Eq, Structural)]
pub struct ParagraphOptions {
    pub spacing_before: Double,
    pub spacing_after: Double,
    pub indent: Double,
}

pub open spec fn given_or(o: Option<Double>, old: Double) -> Double {
    match o {
        Some(v) => v,
        None => old,
    }
}

fn or_old(o: Option<Double>, old: Double) -> (r: Double)
    ensures
        r == given_or(o, old),
{
    match o {
        Some(v) => v,
        None => old,
    }
}

/// Sets the spacing of paragraphs; what is not given stays.
pub fn set_paragraph_options(
    nodes: &Vec<Node>,
    name: &str,
    spacing_before: Option<Double>,
    spacing_after: Option<Double>,
    indent: Option<Double>,
) -> (r: Result<Targeted<ParagraphOptions>, String>)
    ensures
        match r {
            Err(e) => text_error(nodes@, "Node"@, name@) == Some(e@),
            Ok(t) => {
                let old = nodes@[t.position as int].text;
                &&& text_error(nodes@, "Node"@, name@) is None
                &&& t.position == target(nodes@, name@)
                &&& t.value == (ParagraphOptions {
                    spacing_before: given_or(spacing_before, old.spacing_before),
                    spacing_after: given_or(spacing_after, old.spacing_after),
                    indent: given_or(indent, old.indent),
                })
                &&& spacing_before matches Some(v) ==> t.value.spacing_before == v
                &&& spacing_after matches Some(v) ==> t.value.spacing_after == v
                &&& indent matches Some(v) ==> t.value.indent == v
                &&& spacing_before is None ==> t.value.spacing_before == old.spacing_before
                &&& spacing_after is None ==> t.value.spacing_after == old.spacing_after
                &&& indent is None ==> t.value.indent == old.indent
            },
        },
{
    match find_text(nodes, "Node", name) {
        Err(e) => Err(e),
        Ok(k) => {
            let old = &nodes[k].text;
            Ok(
                Targeted {
                    position: k,
                    value: ParagraphOptions {
                        spacing_before: or_old(spacing_before, old.spacing_before),
                        spacing_after: or_old(spacing_after, old.spacing_after),
                        indent: or_old(indent, old.indent),
                    },
                },
            )
        },
    }
}

/// `x` put into a sorted list, behind everything that is not larger.
pub open spec fn inserted(sorted: Seq<Double>, x: Double) -> Seq<Double>
    decreases sorted.len(),
{
    if sorted.len() > 0 && sorted.last().key() > x.key() {
        inserted(sorted.drop_last(), x).push(sorted.last())
    } else {
        sorted.push(x)
    }
}

/// The numbers in order; equal ones keep theirs.
pub open spec fn in_order(stops: Seq<Double>) -> Seq<Double>
    decreases stops.len(),
{
    if stops.len() == 0 {
        Seq::empty()
    } else {
        inserted(in_order(stops.drop_last()), stops.last())
    }
}

/// No number is larger than one behind it.
pub open spec fn is_ordered(s: Seq<Double>) -> bool {
    forall|i: int, j: int| 0 <= i < j < s.len() ==> (#[trigger] s[i]).key() <= (#[trigger] s[j]).key()
}

proof fn lemma_inserted(sorted: Seq<Double>, x: Double)
    requires
        is_ordered(sorted),
    ensures
        is_ordered(inserted(sorted, x)),
        inserted(sorted, x).to_multiset() =~= sorted.to_multiset().insert(x),
        inserted(sorted, x).len() == sorted.len() + 1,
        forall|i: int|
            0 <= i < inserted(sorted, x).len() ==> (#[trigger] inserted(sorted, x)[i]).key()
                <= if sorted.len() > 0 && sorted.last().key() > x.key() {
                sorted.last().key()
            } else {
                x.key()
            },
    decreases sorted.len(),
{
    broadcast use vstd::seq_lib::group_to_multiset_ensures;

    if sorted.len() > 0 && sorted.last().key() > x.key() {
        let rest = sorted.drop_last();
        let y = sorted.last();
        lemma_inserted(rest, x);
        assert(sorted =~= rest.push(y));
        assert forall|i: int| 0 <= i < inserted(rest, x).len() implies (#[trigger] inserted(
            rest,
            x,
        )[i]).key() <= y.key() by {
            if rest.len() > 0 {
                assert(sorted[rest.len() - 1].key() <= sorted[rest.len() as int].key());
            }
        }
        let r = inserted(sorted, x);
        assert(r == inserted(rest, x).push(y));
        assert(r.to_multiset() =~= rest.to_multiset().insert(x).insert(y));
        assert(sorted.to_multiset() =~= rest.to_multiset().insert(y));
    } else {
        assert forall|i: int| 0 <= i < sorted.len() implies (#[trigger] sorted[i]).key()
            <= x.key() by {
            if i < sorted.len() - 1 {
                assert(sorted[i].key() <= sorted[sorted.len() - 1].key());
            }
        }
    }
}

/// Tab stops are put in order, and none is lost or added.
pub proof fn law_stops_in_order(stops: Seq<Double>)
    ensures
        is_ordered(in_order(stops)),
        in_order(stops).to_multiset() =~= stops.to_multiset(),
        in_order(stops).len() == stops.len(),
    decreases stops.len(),
{
    broadcast use vstd::seq_lib::group_to_multiset_ensures;

    if stops.len() > 0 {
        let rest = stops.drop_last();
        law_stops_in_order(rest);
        lemma_inserted(in_order(rest), stops.last());
        assert(stops =~= rest.push(stops.last()));
    } else {
        assert(in_order(stops) =~= stops);
    }
}

fn insert_stop(sorted: &mut Vec<Double>, x: Double)
    ensures
        final(sorted)@ == inserted(old(sorted)@, x),
{
    let ghost start = sorted@;
    let mut n: usize = sorted.len();
    assert(start.take(n as int) =~= start);
    assert(start.skip(n as int) =~= Seq::<Double>::empty());
    assert(inserted(start, x) =~= inserted(start.take(n as int), x) + start.skip(n as int));
    while n > 0 && !sorted[n - 1].at_most(x)
        invariant
            n <= sorted.len(),
            sorted@ == start,
            inserted(start, x) == inserted(start.take(n as int), x) + start.skip(n as int),
        decreases n,
    {
        proof {
            let here = start.take(n as int);
            assert(here.last() == start[n - 1]);
            assert(here.drop_last() =~= start.take(n - 1));
            assert(start.skip(n - 1) =~= seq![start[n - 1]] + start.skip(n as int));
            assert(inserted(start.take(n - 1), x).push(start[n - 1]) + start.skip(n as int)
                =~= inserted(start.take(n - 1), x) + start.skip(n - 1));
        }
        n -= 1;
    }
    sorted.insert(n, x);
    assert(sorted@ =~= start.take(n as int).push(x) + start.skip(n as int));
    proof {
        if n > 0 {
            assert(start.take(n as int).last() == start[n - 1]);
        }
    }
}

/// The stops in order.
pub fn ordered_stops(stops: &Vec<Double>) -> (r: Vec<Double>)
    ensures
        r@ == in_order(stops@),
{
    let mut out: Vec<Double> = Vec::new();
    let mut i: usize = 0;
    assert(stops@.take(0) =~= Seq::<Double>::empty());
    while i < stops.len()
        invariant
            i <= stops.len(),
            out@ == in_order(stops@.take(i as int)),
        decreases stops.len() - i,
    {
        proof {
            assert(stops@.take(i + 1).drop_last() =~= stops@.take(i as int));
            assert(stops@.take(i + 1).last() == stops@[i as int]);
        }
        insert_stop(&mut out, stops[i]);
        i += 1;
    }
    assert(stops@.take(stops@.len() as int) =~= stops@);
    out
}

/// Why tab stops are not set.
pub open spec fn stops_error(nodes: Seq<Node>, name: Seq<char>, n: nat) -> Option<Seq<char>> {
    match text_error(nodes, "Node"@, name) {
        Some(e) => Some(e),
        None => if n == 0 {
            Some(
                "stops must contain at least one position. Use clear_tab_stops to reset to defaults."@,
            )
        } else {
            None
        },
    }
}

/// Sets the tab stops of a text, in order.
pub fn set_tab_stops(nodes: &Vec<Node>, name: &str, stops: &Vec<Double>) -> (r: Result<
    Targeted<Vec<Double>>,
    String,
>)
    requires
        forall|i: int| 0 <= i < stops.len() ==> !(#[trigger] stops@[i]).is_nan(),
    ensures
        match r {
            Err(e) => stops_error(nodes@, name@, stops@.len()) == Some(e@),
            Ok(t) => stops_error(nodes@, name@, stops@.len()) is None && t.position == target(
                nodes@,
                name@,
            ) && t.value@ == in_order(stops@),
        },
{
    match find_text(nodes, "Node", name) {
        Err(e) => Err(e),
        Ok(k) => if stops.len() == 0 {
            Err(
                "stops must contain at least one position. Use clear_tab_stops to reset to defaults.".to_owned(),
            )
        } else {
            Ok(Targeted { position: k, value: ordered_stops(stops) })
        },
    }
}

/// Removes the tab stops of a text.
pub fn clear_tab_stops(nodes: &Vec<Node>, name: &str) -> (r: Result<Planned<()>, String>)
    ensures
        match r {
            Err(e) => text_error(nodes@, "Node"@, name@) == Some(e@),
            Ok(p) => text_error(nodes@, "Node"@, name@) is None && p.position == target(
                nodes@,
                name@,
            ) && p.message@ == quoted_name(
                "Cleared tab stops on"@,
                name@,
                ". Default tab spacing restored."@,
            ),
        },
{
    match find_text(nodes, "Node", name) {
        Err(e) => Err(e),
        Ok(k) => Ok(
            Planned {
                position: k,
                value: (),
                message: quoted_text(
                    "Cleared tab stops on",
                    name,
                    ". Default tab spacing restored.",
                ),
            },
        ),
    }
}

/// The features with those of `more` that are missing.
pub open spec fn with_features(old: Seq<Seq<char>>, more: Seq<Seq<char>>) -> Seq<Seq<char>>
    decreases more.len(),
{
    if more.len() == 0 {
        old
    } else {
        let before = with_features(old, more.drop_last());
        if before.contains(more.last()) {
            before
        } else {
            before.push(more.last())
        }
    }
}

/// The features without those of `less`.
pub open spec fn without_features(old: Seq<Seq<char>>, less: Seq<Seq<char>>) -> Seq<Seq<char>>
    decreases old.len(),
{
    if old.len() == 0 {
        Seq::empty()
    } else {
        let before = without_features(old.drop_last(), less);
        if less.contains(old.last()) {
            before
        } else {
            before.push(old.last())
        }
    }
}

/// The features after a change: added, removed, or else replaced.
pub open spec fn changed_features(
    old: Seq<Seq<char>>,
    features: Seq<Seq<char>>,
    mode: Seq<char>,
) -> Seq<Seq<char>> {
    if mode == "add"@ {
        with_features(old, features)
    } else if mode == "remove"@ {
        without_features(old, features)
    } else {
        features
    }
}

/// After adding features all of them are there; after removing them none is.
pub proof fn law_features_added_and_removed(old: Seq<Seq<char>>, features: Seq<Seq<char>>)
    ensures
        forall|f: Seq<char>| #[trigger]
            with_features(old, features).contains(f) <==> old.contains(f) || features.contains(f),
        forall|f: Seq<char>| #[trigger]
            without_features(old, features).contains(f) <==> old.contains(f) && !features.contains(
                f,
            ),
{
    lemma_with_features(old, features);
    lemma_without_features(old, features);
}

proof fn lemma_with_features(old: Seq<Seq<char>>, more: Seq<Seq<char>>)
    ensures
        forall|f: Seq<char>| #[trigger]
            with_features(old, more).contains(f) <==> old.contains(f) || more.contains(f),
    decreases more.len(),
{
    if more.len() > 0 {
        let rest = more.drop_last();
        let x = more.last();
        lemma_with_features(old, rest);
        let before = with_features(old, rest);
        let after = with_features(old, more);
        assert(more =~= rest.push(x));
        assert forall|f: Seq<char>| #[trigger] after.contains(f) <==> old.contains(f)
            || more.contains(f) by {
            lemma_push_contains(rest, x, f);
            lemma_push_contains(before, x, f);
        }
    } else {
        assert forall|f: Seq<char>| !more.contains(f) by {}
    }
}

proof fn lemma_push_contains(s: Seq<Seq<char>>, x: Seq<char>, f: Seq<char>)
    ensures
        s.push(x).contains(f) <==> s.contains(f) || f == x,
{
    if s.contains(f) {
        let k = choose|k: int| 0 <= k < s.len() && s[k] == f;
        assert(s.push(x)[k] == f);
    }
    if f == x {
        assert(s.push(x)[s.len() as int] == f);
    }
    if s.push(x).contains(f) {
        let k = choose|k: int| 0 <= k < s.len() + 1 && s.push(x)[k] == f;
        if k < s.len() {
            assert(s[k] == f);
        }
    }
}

proof fn lemma_without_features(old: Seq<Seq<char>>, less: Seq<Seq<char>>)
    ensures
        forall|f: Seq<char>| #[trigger]
            without_features(old, less).contains(f) <==> old.contains(f) && !less.contains(f),
    decreases old.len(),
{
    if old.len() > 0 {
        let rest = old.drop_last();
        let x = old.last();
        lemma_without_features(rest, less);
        let before = without_features(rest, less);
        let after = without_features(old, less);
        assert(old =~= rest.push(x));
        assert forall|f: Seq<char>| #[trigger] after.contains(f) <==> old.contains(f)
            && !less.contains(f) by {
            lemma_push_contains(rest, x, f);
            lemma_push_contains(before, x, f);
        }
    }
}

fn add_features(old: &Vec<String>, more: &Vec<String>) -> (r: Vec<String>)
    ensures
        texts(r@) == with_features(texts(old@), texts(more@)),
{
    let ghost all = texts(more@);
    let mut out = copy_texts(old);
    let mut i: usize = 0;
    assert(all.take(0) =~= Seq::<Seq<char>>::empty());
    while i < more.len()
        invariant
            i <= more.len(),
            all == texts(more@),
            texts(out@) == with_features(texts(old@), all.take(i as int)),
        decreases more.len() - i,
    {
        proof {
            assert(all.take(i + 1).drop_last() =~= all.take(i as int));
            assert(all.take(i + 1).last() == more@[i as int]@);
        }
        if !holds_text(&out, more[i].as_str()) {
            push_copy(&mut out, more[i].as_str());
        }
        i += 1;
    }
    assert(all.take(all.len() as int) =~= all);
    out
}

/// A copy of a list of texts.
pub fn copy_texts(v: &Vec<String>) -> (r: Vec<String>)
    ensures
        texts(r@) == texts(v@),
{
    let ghost all = texts(v@);
    let mut out: Vec<String> = Vec::new();
    let mut i: usize = 0;
    assert(texts(out@) =~= all.take(0));
    while i < v.len()
        invariant
            i <= v.len(),
            all == texts(v@),
            texts(out@) == all.take(i as int),
        decreases v.len() - i,
    {
        push_copy(&mut out, v[i].as_str());
        i += 1;
        assert(texts(out@) =~= all.take(i as int));
    }
    assert(all.take(all.len() as int) =~= all);
    out
}

fn remove_features(old: &Vec<String>, less: &Vec<String>) -> (r: Vec<String>)
    ensures
        texts(r@) == without_features(texts(old@), texts(less@)),
{
    let ghost all = texts(old@);
    let mut out: Vec<String> = Vec::new();
    let mut i: usize = 0;
    assert(all.take(0) =~= Seq::<Seq<char>>::empty());
    assert(texts(out@) =~= Seq::<Seq<char>>::empty());
    while i < old.len()
        invariant
            i <= old.len(),
            all == texts(old@),
            texts(out@) == without_features(all.take(i as int), texts(less@)),
        decreases old.len() - i,
    {
        proof {
            assert(all.take(i + 1).drop_last() =~= all.take(i as int));
            assert(all.take(i + 1).last() == old@[i as int]@);
        }
        if !holds_text(less, old[i].as_str()) {
            push_copy(&mut out, old[i].as_str());
        }
        i += 1;
    }
    assert(all.take(all.len() as int) =~= all);
    out
}

/// Adds, removes or sets the OpenType features of a text.
pub fn set_opentype_features(
    nodes: &Vec<Node>,
    name: &str,
    features: &Vec<String>,
    mode: &str,
) -> (r: Result<Planned<Vec<String>>, String>)
    ensures
        match r {
            Err(e) => text_error(nodes@, "Node"@, name@) == Some(e@),
            Ok(p) => {
                &&& text_error(nodes@, "Node"@, name@) is None
                &&& p.position == target(nodes@, name@)
                &&& texts(p.value@) == changed_features(
                    texts(nodes@[p.position as int].text.features@),
                    texts(features@),
                    mode@,
                )
                &&& p.message@ == quoted_name("OpenType features on"@, name@, " updated ("@)
                    + decimal_text(p.value@.len()) + " active)."@
            },
        },
{
    match find_text(nodes, "Node", name) {
        Err(e) => Err(e),
        Ok(k) => {
            let old = &nodes[k].text.features;
            let value = if same_text(mode, "add") {
                add_features(old, features)
            } else if same_text(mode, "remove") {
                remove_features(old, features)
            } else {
                copy_texts(features)
            };
            let head = quoted_text("OpenType features on", name, " updated (");
            let mut v = chars_of(head.as_str());
            push_all(&mut v, &number_text(value.len() as u64));
            push_str(&mut v, " active).");
            Ok(Planned { position: k, value, message: text_of(&v) })
        },
    }
}

/// The features of a text, as they are listed.
pub open spec fn feature_list(features: Seq<Seq<char>>) -> Seq<char> {
    if features.len() == 0 {
        "(none — using font defaults)"@
    } else {
        join(features, ", "@)
    }
}

fn list_features(features: &Vec<String>) -> (r: Vec<char>)
    ensures
        r@ == feature_list(texts(features@)),
{
    if features.len() == 0 {
        return chars_of("(none — using font defaults)");
    }
    let ghost all = texts(features@);
    let mut parts: Vec<Vec<char>> = Vec::new();
    let mut i: usize = 0;
    while i < features.len()
        invariant
            i <= features.len(),
            all == texts(features@),
            parts@.map_values(|w: Vec<char>| w@) == all.take(i as int),
        decreases features.len() - i,
    {
        let w = chars_of(features[i].as_str());
        proof {
            assert(parts@.push(w).map_values(|w: Vec<char>| w@) =~= parts@.map_values(
                |w: Vec<char>| w@,
            ).push(w@));
            assert(all.take(i + 1) =~= all.take(i as int).push(w@));
        }
        parts.push(w);
        i += 1;
    }
    assert(all.take(all.len() as int) =~= all);
    join_words(&parts, ", ")
}

/// Reports the OpenType features of a text.
pub fn get_opentype_features(nodes: &Vec<Node>, name: &str) -> (r: Result<
    (usize, String),
    String,
>)
    ensures
        match r {
            Err(e) => text_error(nodes@, "Node"@, name@) == Some(e@),
            Ok((k, m)) => {
                let features = texts(nodes@[k as int].text.features@);
                &&& text_error(nodes@, "Node"@, name@) is None
                &&& k == target(nodes@, name@)
                &&& m@ == quoted_name("Node"@, name@, " has "@) + decimal_text(features.len())
                    + " OpenType feature(s): "@ + feature_list(features)
            },
        },
{
    match find_text(nodes, "Node", name) {
        Err(e) => Err(e),
        Ok(k) => {
            let features = &nodes[k].text.features;
            let head = quoted_text("Node", name, " has ");
            let mut v = chars_of(head.as_str());
            push_all(&mut v, &number_text(features.len() as u64));
            push_str(&mut v, " OpenType feature(s): ");
            push_all(&mut v, &list_features(features));
            Ok((k, text_of(&v)))
        },
    }
}

/// Why a text is not bound to a variable.
pub open spec fn bind_error(
    nodes: Seq<Node>,
    variables: Seq<Seq<char>>,
    name: Seq<char>,
    variable: Seq<char>,
) -> Option<Seq<char>> {
    if named_id(nodes, name) is None {
        Some(quoted_name("Node"@, name, " not found."@))
    } else if !variables.contains(variable) {
        Some(quoted_name("Variable"@, variable, " not found. Use define_variable first."@))
    } else {
        text_error(nodes, "Node"@, name)
    }
}

/// Binds a text to a variable of the document.
pub fn bind_text_variable(
    nodes: &Vec<Node>,
    variables: &Vec<String>,
    name: &str,
    variable: &str,
) -> (r: Result<Planned<String>, String>)
    ensures
        match r {
            Err(e) => bind_error(nodes@, texts(variables@), name@, variable@) == Some(e@),
            Ok(p) => bind_error(nodes@, texts(variables@), name@, variable@) is None && p.position
                == target(nodes@, name@) && p.value@ == variable@ && p.message@ == quoted_name(
                "Text node"@,
                name@,
                " bound to variable '"@,
            ) + variable@ + "'."@,
        },
{
    if resolve_node_id(nodes, name).is_none() {
        return Err(quoted_text("Node", name, " not found."));
    }
    if !holds_text(variables, variable) {
        return Err(
            quoted_text("Variable", variable, " not found. Use define_variable first."),
        );
    }
    match find_text(nodes, "Node", name) {
        Err(e) => Err(e),
        Ok(k) => {
            let head = quoted_text("Text node", name, " bound to variable '");
            Ok(
                Planned {
                    position: k,
                    value: variable.to_owned(),
                    message: around_text(head.as_str(), variable, "'."),
                },
            )
        },
    }
}

/// Why a binding is not removed.
pub open spec fn unbind_error(nodes: Seq<Node>, name: Seq<char>) -> Option<Seq<char>> {
    match text_error(nodes, "Node"@, name) {
        Some(e) => Some(e),
        None => if nodes[target(nodes, name)].text.variable is None {
            Some(quoted_name("Text node"@, name, " does not have a variable binding."@))
        } else {
            None
        },
    }
}

/// Removes the binding of a text.
pub fn unbind_text_variable(nodes: &Vec<Node>, name: &str) -> (r: Result<Planned<()>, String>)
    ensures
        match r {
            Err(e) => unbind_error(nodes@, name@) == Some(e@),
            Ok(p) => unbind_error(nodes@, name@) is None && p.position == target(nodes@, name@)
                && p.message@ == quoted_name(
                "Removed variable binding from text node"@,
                name@,
                "."@,
            ),
        },
{
    match find_text(nodes, "Node", name) {
        Err(e) => Err(e),
        Ok(k) => if nodes[k].text.variable.is_none() {
            Err(quoted_text("Text node", name, " does not have a variable binding."))
        } else {
            Ok(
                Planned {
                    position: k,
                    value: (),
                    message: quoted_text("Removed variable binding from text node", name, "."),
                },
            )
        },
    }
}

/// The alignment that a word stands for; an unknown word stands for left.
pub open spec fn align_of(word: Seq<char>) -> TextAlign {
    if word == "center"@ {
        TextAlign::Center
    } else if word == "right"@ {
        TextAlign::Right
    } else {
        TextAlign::Left
    }
}

pub fn parse_align(word: &str) -> (r: TextAlign)
    ensures
        r == align_of(word@),
{
    if same_text(word, "center") {
        TextAlign::Center
    } else if same_text(word, "right") {
        TextAlign::Right
    } else {
        TextAlign::Left
    }
}

/// The word of an alignment.
pub open spec fn align_text(a: TextAlign) -> Seq<char> {
    match a {
        TextAlign::Left => "left"@,
        TextAlign::Center => "center"@,
        TextAlign::Right => "right"@,
    }
}

pub fn align_name(a: TextAlign) -> (r: &'static str)
    ensures
        r@ == align_text(a),
{
    match a {
        TextAlign::Left => "left",
        TextAlign::Center => "center",
        TextAlign::Right => "right",
    }
}

/// The word of an alignment stands for it.
pub proof fn law_align_round_trip(a: TextAlign)
    ensures
        align_of(align_text(a)) == a,
{
    reveal_strlit("left");
    reveal_strlit("center");
    reveal_strlit("right");
    assert("left"@ != "center"@) by {
        assert("left"@.len() != "center"@.len());
    }
    assert("left"@ != "right"@) by {
        assert("left"@.len() != "right"@.len());
    }
    assert("right"@ != "center"@) by {
        assert("right"@.len() != "center"@.len());
    }
}

/// How the letters of a new text are set.
#[derive(Debug)]
pub struct Lettering {
    pub family: String,
    pub size: Double,
    pub weight: u16,
    pub align: TextAlign,
    pub line_height: Double,
    pub letter_spacing: Double,
}

/// What is asked of a new text. What is `None` is left to the lettering that every
/// fresh text has.
#[derive(Debug)]
pub struct TextRequest {
    pub content: String,
    pub name: Option<String>,
    pub family: Option<String>,
    pub size: Option<Double>,
    pub weight: Option<u16>,
    pub align: Option<String>,
    pub line_height: Option<Double>,
    pub letter_spacing: Option<Double>,
    pub x: Double,
    pub y: Double,
    pub tags: Vec<String>,
    pub layer: Option<u128>,
    /// Why the fill or the stroke cannot be read, where it is given and cannot.
    pub bad_fill: Option<String>,
    pub bad_stroke: Option<String>,
}

/// A text that is added to a layer, moved to `(x, y)`, and what is said about it.
#[derive(Debug)]
pub struct NewText {
    pub content: String,
    pub name: String,
    pub lettering: Lettering,
    pub x: Double,
    pub y: Double,
    pub tags: Vec<String>,
    pub layer: Option<u128>,
    pub message: String,
}

/// Whether letters are set as asked, and otherwise as those of a fresh text.
pub open spec fn is_lettering(r: Lettering, args: TextRequest, fresh: Lettering) -> bool {
    &&& r.family@ == text_or(args.family, fresh.family@)
    &&& r.size == given_or(args.size, fresh.size)
    &&& r.weight == (match args.weight {
        Some(w) => w,
        None => fresh.weight,
    })
    &&& r.align == (match args.align {
        Some(word) => align_of(word@),
        None => fresh.align,
    })
    &&& r.line_height == given_or(args.line_height, fresh.line_height)
    &&& r.letter_spacing == given_or(args.letter_spacing, fresh.letter_spacing)
}

/// Adds a text. It is refused where its fill cannot be read, or else where its stroke
/// cannot.
pub fn create_text(args: &TextRequest, fresh: &Lettering, id: u128) -> (r: Result<
    NewText,
    String,
>)
    ensures
        match r {
            Err(e) => match args.bad_fill {
                Some(why) => e@ == why@,
                None => args.bad_stroke is Some && e@ == args.bad_stroke->0@,
            },
            Ok(t) => {
                &&& args.bad_fill is None
                &&& args.bad_stroke is None
                &&& t.content@ == args.content@
                &&& t.name@ == text_or(args.name, "Text"@)
                &&& is_lettering(t.lettering, *args, *fresh)
                &&& t.x == args.x
                &&& t.y == args.y
                &&& texts(t.tags@) == texts(args.tags@)
                &&& t.layer == args.layer
                &&& t.message@ == quoted_name("Created text"@, t.name@, " (id: "@) + id_text(id)
                    + ")"@
            },
        },
{
    if let Some(why) = &args.bad_fill {
        return Err(why.as_str().to_owned());
    }
    if let Some(why) = &args.bad_stroke {
        return Err(why.as_str().to_owned());
    }
    let lettering = Lettering {
        family: choose_text(&args.family, fresh.family.as_str()).to_owned(),
        size: or_old(args.size, fresh.size),
        weight: match args.weight {
            Some(w) => w,
            None => fresh.weight,
        },
        align: match &args.align {
            Some(word) => parse_align(word.as_str()),
            None => fresh.align,
        },
        line_height: or_old(args.line_height, fresh.line_height),
        letter_spacing: or_old(args.letter_spacing, fresh.letter_spacing),
    };
    let name = choose_text(&args.name, "Text").to_owned();
    let head = quoted_text("Created text", name.as_str(), " (id: ");
    let mut v = chars_of(head.as_str());
    crate::scene::push_id(&mut v, id);
    push_str(&mut v, ")");
    Ok(
        NewText {
            content: args.content.as_str().to_owned(),
            name,
            lettering,
            x: args.x,
            y: args.y,
            tags: copy_texts(&args.tags),
            layer: args.layer,
            message: text_of(&v),
        },
    )
}


/// Lettering that nothing is asked of is fresh lettering, and each thing that is asked for
/// changes that alone.
pub proof fn law_lettering_is_as_asked(r: Lettering, args: TextRequest, fresh: Lettering)
    requires
        is_lettering(r, args, fresh),
    ensures
        args.size is None ==> r.size == fresh.size,
        args.line_height is None ==> r.line_height == fresh.line_height,
        args.letter_spacing is None ==> r.letter_spacing == fresh.letter_spacing,
        args.weight is None ==> r.weight == fresh.weight,
        args.align is None ==> r.align == fresh.align,
        args.family is None ==> r.family@ == fresh.family@,
        args.size matches Some(v) ==> r.size == v,
        args.line_height matches Some(v) ==> r.line_height == v,
        args.letter_spacing matches Some(v) ==> r.letter_spacing == v,
        args.weight matches Some(v) ==> r.weight == v,
        args.family matches Some(v) ==> r.family@ == v@,
{
}

} // verus!
