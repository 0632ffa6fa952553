//! Named character and paragraph styles.
use crate::double::Double;
use crate::scene::{
    around_text, find_node, has_node, position_of, resolve_node_id, resolve_targets, targets, Node,
    NodeKind,
};
use crate::text::{
    chars_of, decimal_text, number_text, option_text, push_all, push_str, same_text, text_of, texts,
    trim, trimmed,
};
use crate::typography::{align_name, align_text, is_target, quoted_name, quoted_text, target};
use vstd::prelude::*;

verus! {

/// A named set of character attributes; what is absent is left alone.
#[derive(Debug)]
pub struct CharacterStyle {
    pub name: String,
    pub font_family: Option<String>,
    pub font_size: Option<Double>,
    pub font_weight: Option<u16>,
    pub fill_hex: Option<String>,
    pub letter_spacing: Option<Double>,
    pub line_height: Option<Double>,
}

#[verifier::ext_equal]
pub struct CharacterStyleView {
    pub name: Seq<char>,
    pub font_family: Option<Seq<char>>,
    pub font_size: Option<Double>,
    pub font_weight: Option<u16>,
    pub fill_hex: Option<Seq<char>>,
    pub letter_spacing: Option<Double>,
    pub line_height: Option<Double>,
}

impl View for CharacterStyle {
    type V = CharacterStyleView;

    open spec fn view(&self) -> CharacterStyleView {
        CharacterStyleView {
            name: self.name@,
            font_family: option_text(self.font_family),
            font_size: self.font_size,
            font_weight: self.font_weight,
            fill_hex: option_text(self.fill_hex),
            letter_spacing: self.letter_spacing,
            line_height: self.line_height,
        }
    }
}

/// A named set of paragraph attributes; what is absent is left alone.
#[derive(Debug)]
pub struct ParagraphStyle {
    pub name: String,
    pub align: Option<String>,
    pub line_height: Option<Double>,
    pub letter_spacing: Option<Double>,
    pub font_size: Option<Double>,
    pub font_family: Option<String>,
}

#[verifier::ext_equal]
pub struct ParagraphStyleView {
    pub name: Seq<char>,
    pub align: Option<Seq<char>>,
    pub line_height: Option<Double>,
    pub letter_spacing: Option<Double>,
    pub font_size: Option<Double>,
    pub font_family: Option<Seq<char>>,
}

impl View for ParagraphStyle {
    type V = ParagraphStyleView;

    open spec fn view(&self) -> ParagraphStyleView {
        ParagraphStyleView {
            name: self.name@,
            align: option_text(self.align),
            line_height: self.line_height,
            letter_spacing: self.letter_spacing,
            font_size: self.font_size,
            font_family: option_text(self.font_family),
        }
    }
}

/// What is given, or else what the source has.
pub open spec fn or_source<T>(given: Option<T>, source: T) -> Option<T> {
    match given {
        Some(v) => Some(v),
        None => Some(source),
    }
}

/// The text that attributes are captured from, where `source` stands for one.
pub open spec fn source_text(nodes: Seq<Node>, source: Option<Seq<char>>) -> Option<int> {
    match source {
        Some(s) => if is_target(nodes, s) && nodes[target(nodes, s)].kind == NodeKind::Text {
            Some(target(nodes, s))
        } else {
            None
        },
        None => None,
    }
}

pub open spec fn str_view(o: Option<&str>) -> Option<Seq<char>> {
    match o {
        Some(s) => Some(s@),
        None => None,
    }
}

/// Finds the text that attributes are captured from.
pub fn find_source_text(nodes: &Vec<Node>, source: Option<&str>) -> (r: Option<usize>)
    ensures
        match r {
            Some(k) => source_text(nodes@, str_view(source)) == Some(k as int) && k < nodes.len(),
            None => source_text(nodes@, str_view(source)) is None,
        },
{
    match source {
        None => None,
        Some(s) => match resolve_node_id(nodes, s) {
            None => None,
            Some(id) => match find_node(nodes, id) {
                None => None,
                Some(k) => if nodes[k].kind == NodeKind::Text {
                    Some(k)
                } else {
                    None
                },
            },
        },
    }
}

/// The style that is saved: its name without white space around it, and what is
/// given, completed from the source text. `hex` is the solid fill of the source,
/// where it shows one.
pub open spec fn saved_character_style(
    given: CharacterStyleView,
    nodes: Seq<Node>,
    source: Option<int>,
    hex: Option<Seq<char>>,
) -> CharacterStyleView {
    let name = trim(given.name);
    match source {
        None => CharacterStyleView { name, ..given },
        Some(k) => CharacterStyleView {
            name,
            font_family: or_source(given.font_family, nodes[k].font_family@),
            font_size: or_source(given.font_size, nodes[k].text.font_size),
            font_weight: or_source(given.font_weight, nodes[k].text.font_weight),
            fill_hex: match given.fill_hex {
                Some(h) => Some(h),
                None => hex,
            },
            letter_spacing: or_source(given.letter_spacing, nodes[k].text.letter_spacing),
            line_height: or_source(given.line_height, nodes[k].text.line_height),
        },
    }
}

/// The style that is saved, completed from the source text.
pub open spec fn saved_paragraph_style(
    given: ParagraphStyleView,
    nodes: Seq<Node>,
    source: Option<int>,
) -> ParagraphStyleView {
    let name = trim(given.name);
    match source {
        None => ParagraphStyleView { name, ..given },
        Some(k) => ParagraphStyleView {
            name,
            align: or_source(given.align, align_text(nodes[k].text.align)),
            line_height: or_source(given.line_height, nodes[k].text.line_height),
            letter_spacing: or_source(given.letter_spacing, nodes[k].text.letter_spacing),
            font_size: or_source(given.font_size, nodes[k].text.font_size),
            font_family: or_source(given.font_family, nodes[k].font_family@),
        },
    }
}

/// The first of `names` that is `name`.
pub open spec fn is_first_named(names: Seq<Seq<char>>, name: Seq<char>, k: int) -> bool {
    0 <= k < names.len() && names[k] == name && forall|j: int|
        0 <= j < k ==> #[trigger] names[j] != name
}

fn find_name(names: &Vec<String>, name: &str) -> (r: Option<usize>)
    ensures
        match r {
            Some(k) => is_first_named(texts(names@), name@, k as int) && texts(names@).contains(
                name@,
            ),
            None => !texts(names@).contains(name@),
        },
{
    let mut i: usize = 0;
    while i < names.len()
        invariant
            i <= names.len(),
            forall|j: int| 0 <= j < i ==> #[trigger] texts(names@)[j] != name@,
        decreases names.len() - i,
    {
        if same_text(names[i].as_str(), name) {
            assert(texts(names@)[i as int] == name@);
            return Some(i);
        }
        i += 1;
    }
    None
}

/// A style, where it goes (over the style at a position, or behind all), and what
/// is said.
#[derive(Debug)]
pub struct SavedStyle<S> {
    pub style: S,
    pub over: Option<usize>,
    pub message: String,
}

/// Where a style of this name goes.
pub open spec fn style_place(names: Seq<Seq<char>>, name: Seq<char>, over: Option<usize>) -> bool {
    match over {
        Some(k) => is_first_named(names, name, k as int),
        None => !names.contains(name),
    }
}

/// What is said about a saved style.
pub open spec fn saved_text(over: Option<usize>, kind: Seq<char>, name: Seq<char>) -> Seq<char> {
    quoted_name(
        (if over is Some {
            "Updated "@
        } else {
            "Created "@
        }) + kind + " style"@,
        name,
        "."@,
    )
}

fn say_saved(over: Option<usize>, kind: &str, name: &str) -> (r: String)
    ensures
        r@ == saved_text(over, kind@, name@),
{
    let label = around_text(
        if over.is_some() {
            "Updated "
        } else {
            "Created "
        },
        kind,
        " style",
    );
    quoted_text(label.as_str(), name, ".")
}

fn or_text(given: Option<String>, source: &str) -> (r: Option<String>)
    ensures
        option_text(r) == or_source(option_text(given), source@),
{
    match given {
        Some(s) => Some(s),
        None => Some(source.to_owned()),
    }
}

fn or_number(given: Option<Double>, source: Double) -> (r: Option<Double>)
    ensures
        r == or_source(given, source),
{
    match given {
        Some(s) => Some(s),
        None => Some(source),
    }
}

/// Saves a character style under its name, over the one of that name where there
/// is one. `names` are the names of the styles that are there.
pub fn create_character_style(
    nodes: &Vec<Node>,
    names: &Vec<String>,
    given: CharacterStyle,
    source: Option<&str>,
    source_hex: Option<String>,
) -> (r: Result<SavedStyle<CharacterStyle>, String>)
    ensures
        match r {
            Err(e) => trim(given.name@).len() == 0 && e@ == "Style name must not be empty"@,
            Ok(s) => {
                &&& trim(given.name@).len() > 0
                &&& s.style@ == saved_character_style(
                    given@,
                    nodes@,
                    source_text(nodes@, str_view(source)),
                    option_text(source_hex),
                )
                &&& style_place(texts(names@), s.style@.name, s.over)
                &&& s.message@ == saved_text(s.over, "character"@, s.style@.name)
            },
        },
{
    let name = trimmed(&chars_of(given.name.as_str()));
    if name.len() == 0 {
        return Err("Style name must not be empty".to_owned());
    }
    let called = text_of(&name);
    let over = find_name(names, called.as_str());
    let message = say_saved(over, "character", called.as_str());
    let style = match find_source_text(nodes, source) {
        None => CharacterStyle {
            name: called,
            font_family: given.font_family,
            font_size: given.font_size,
            font_weight: given.font_weight,
            fill_hex: given.fill_hex,
            letter_spacing: given.letter_spacing,
            line_height: given.line_height,
        },
        Some(k) => CharacterStyle {
            name: called,
            font_family: or_text(given.font_family, nodes[k].font_family.as_str()),
            font_size: or_number(given.font_size, nodes[k].text.font_size),
            font_weight: match given.font_weight {
                Some(w) => Some(w),
                None => Some(nodes[k].text.font_weight),
            },
            fill_hex: match given.fill_hex {
                Some(h) => Some(h),
                None => source_hex,
            },
            letter_spacing: or_number(given.letter_spacing, nodes[k].text.letter_spacing),
            line_height: or_number(given.line_height, nodes[k].text.line_height),
        },
    };
    assert(style@ =~= saved_character_style(
        given@,
        nodes@,
        source_text(nodes@, str_view(source)),
        option_text(source_hex),
    ));
    Ok(SavedStyle { style, over, message })
}

/// Saves a paragraph style under its name, over the one of that name where there
/// is one.
pub fn create_paragraph_style(
    nodes: &Vec<Node>,
    names: &Vec<String>,
    given: ParagraphStyle,
    source: Option<&str>,
) -> (r: Result<SavedStyle<ParagraphStyle>, String>)
    ensures
        match r {
            Err(e) => trim(given.name@).len() == 0 && e@ == "Style name must not be empty"@,
            Ok(s) => {
                &&& trim(given.name@).len() > 0
                &&& s.style@ == saved_paragraph_style(
                    given@,
                    nodes@,
                    source_text(nodes@, str_view(source)),
                )
                &&& style_place(texts(names@), s.style@.name, s.over)
                &&& s.message@ == saved_text(s.over, "paragraph"@, s.style@.name)
            },
        },
{
    let name = trimmed(&chars_of(given.name.as_str()));
    if name.len() == 0 {
        return Err("Style name must not be empty".to_owned());
    }
    let called = text_of(&name);
    let over = find_name(names, called.as_str());
    let message = say_saved(over, "paragraph", called.as_str());
    let style = match find_source_text(nodes, source) {
        None => ParagraphStyle {
            name: called,
            align: given.align,
            line_height: given.line_height,
            letter_spacing: given.letter_spacing,
            font_size: given.font_size,
            font_family: given.font_family,
        },
        Some(k) => ParagraphStyle {
            name: called,
            align: or_text(given.align, align_name(nodes[k].text.align)),
            line_height: or_number(given.line_height, nodes[k].text.line_height),
            letter_spacing: or_number(given.letter_spacing, nodes[k].text.letter_spacing),
            font_size: or_number(given.font_size, nodes[k].text.font_size),
            font_family: or_text(given.font_family, nodes[k].font_family.as_str()),
        },
    };
    assert(style@ =~= saved_paragraph_style(
        given@,
        nodes@,
        source_text(nodes@, str_view(source)),
    ));
    Ok(SavedStyle { style, over, message })
}

/// The positions of the first `n` styles that are not called `name`.
pub open spec fn kept_positions(names: Seq<Seq<char>>, name: Seq<char>, n: nat) -> Seq<usize>
    decreases n,
{
    if n == 0 {
        Seq::empty()
    } else {
        let before = kept_positions(names, name, (n - 1) as nat);
        if names[n - 1] != name {
            before.push((n - 1) as usize)
        } else {
            before
        }
    }
}

/// What comes of deleting a style: the positions of those that stay and what is
/// said, or why there is none.
pub open spec fn is_deletion(
    names: Seq<Seq<char>>,
    name: Seq<char>,
    kind: Seq<char>,
    r: Result<(Vec<usize>, String), String>,
) -> bool {
    match r {
        Err(e) => !names.contains(name) && e@ == quoted_name(
            "No "@ + kind + " style named"@,
            name,
            " found."@,
        ),
        Ok((kept, m)) => names.contains(name) && kept@ == kept_positions(names, name, names.len())
            && m@ == quoted_name("Deleted "@ + kind + " style"@, name, "."@),
    }
}

fn delete_style(names: &Vec<String>, name: &str, kind: &str) -> (r: Result<
    (Vec<usize>, String),
    String,
>)
    ensures
        is_deletion(texts(names@), name@, kind@, r),
{
    if find_name(names, name).is_none() {
        let label = around_text("No ", kind, " style named");
        return Err(quoted_text(label.as_str(), name, " found."));
    }
    let ghost all = texts(names@);
    let mut kept: Vec<usize> = Vec::new();
    let mut i: usize = 0;
    while i < names.len()
        invariant
            i <= names.len(),
            all == texts(names@),
            kept@ == kept_positions(all, name@, i as nat),
        decreases names.len() - i,
    {
        assert(all[i as int] == names@[i as int]@);
        if !same_text(names[i].as_str(), name) {
            kept.push(i);
        }
        i += 1;
    }
    let label = around_text("Deleted ", kind, " style");
    Ok((kept, quoted_text(label.as_str(), name, ".")))
}

/// Deletes a character style.
pub fn delete_character_style(names: &Vec<String>, name: &str) -> (r: Result<
    (Vec<usize>, String),
    String,
>)
    ensures
        is_deletion(texts(names@), name@, "character"@, r),
{
    delete_style(names, name, "character")
}

/// Deletes a paragraph style.
pub fn delete_paragraph_style(names: &Vec<String>, name: &str) -> (r: Result<
    (Vec<usize>, String),
    String,
>)
    ensures
        is_deletion(texts(names@), name@, "paragraph"@, r),
{
    delete_style(names, name, "paragraph")
}

/// After a style was deleted none that stays has its name, and all others stay.
pub proof fn law_deleted_style_is_gone(names: Seq<Seq<char>>, name: Seq<char>, n: nat)
    requires
        n <= names.len() <= usize::MAX,
    ensures
        forall|i: int|
            0 <= i < kept_positions(names, name, n).len() ==> (#[trigger] kept_positions(
                names,
                name,
                n,
            )[i]) < n && names[kept_positions(names, name, n)[i] as int] != name,
        forall|k: int|
            0 <= k < n && names[k] != name ==> #[trigger] kept_positions(names, name, n).contains(
                k as usize,
            ),
    decreases n,
{
    if n > 0 {
        let m = (n - 1) as nat;
        law_deleted_style_is_gone(names, name, m);
        let before = kept_positions(names, name, m);
        let all = kept_positions(names, name, n);
        assert forall|k: int| 0 <= k < n && names[k] != name implies #[trigger] all.contains(
            k as usize,
        ) by {
            if k == n - 1 {
                assert(all[all.len() - 1] == k as usize);
            } else {
                assert(before.contains(k as usize));
                let i = choose|i: int| 0 <= i < before.len() && before[i] == k as usize;
                assert(all[i] == k as usize);
            }
        }
        assert forall|i: int| 0 <= i < all.len() implies (#[trigger] all[i]) < n
            && names[all[i] as int] != name by {
            if i < before.len() {
                assert(all[i] == before[i]);
            }
        }
    }
}

/// What is said about a number of styles.
pub open spec fn style_count_text(n: nat, kind: Seq<char>) -> Seq<char> {
    if n == 0 {
        "No "@ + kind + " styles defined."@
    } else {
        decimal_text(n) + " "@ + kind + " style(s)."@
    }
}

fn say_style_count(n: usize, kind: &str) -> (r: String)
    ensures
        r@ == style_count_text(n as nat, kind@),
{
    if n == 0 {
        around_text("No ", kind, " styles defined.")
    } else {
        let mut v = number_text(n as u64);
        push_str(&mut v, " ");
        push_str(&mut v, kind);
        push_str(&mut v, " style(s).");
        text_of(&v)
    }
}

/// What is said about the character styles.
pub fn list_character_styles(n: usize) -> (r: String)
    ensures
        r@ == style_count_text(n as nat, "character"@),
{
    say_style_count(n, "character")
}

/// What is said about the paragraph styles.
pub fn list_paragraph_styles(n: usize) -> (r: String)
    ensures
        r@ == style_count_text(n as nat, "paragraph"@),
{
    say_style_count(n, "paragraph")
}

/// The positions of those of `ids` that are texts.
pub open spec fn text_positions_of(nodes: Seq<Node>, ids: Seq<u128>) -> Seq<usize>
    decreases ids.len(),
{
    if ids.len() == 0 {
        Seq::empty()
    } else {
        let before = text_positions_of(nodes, ids.drop_last());
        let id = ids.last();
        if has_node(nodes, id) && nodes[position_of(nodes, id)].kind == NodeKind::Text {
            before.push(position_of(nodes, id) as usize)
        } else {
            before
        }
    }
}

/// The positions of those of `ids` that are texts.
pub fn find_texts(nodes: &Vec<Node>, ids: &Vec<u128>) -> (r: Vec<usize>)
    ensures
        r@ == text_positions_of(nodes@, ids@),
{
    let mut out: Vec<usize> = Vec::new();
    let mut i: usize = 0;
    assert(ids@.take(0) =~= Seq::<u128>::empty());
    while i < ids.len()
        invariant
            i <= ids.len(),
            out@ == text_positions_of(nodes@, ids@.take(i as int)),
        decreases ids.len() - i,
    {
        proof {
            assert(ids@.take(i + 1).drop_last() =~= ids@.take(i as int));
            assert(ids@.take(i + 1).last() == ids@[i as int]);
        }
        if let Some(k) = find_node(nodes, ids[i]) {
            if nodes[k].kind == NodeKind::Text {
                out.push(k);
            }
        }
        i += 1;
    }
    assert(ids@.take(ids@.len() as int) =~= ids@);
    out
}

/// Why a style is not applied.
pub open spec fn apply_error(
    nodes: Seq<Node>,
    ids: Seq<u128>,
    names: Seq<Seq<char>>,
    kind: Seq<char>,
    name: Seq<char>,
) -> Option<Seq<char>> {
    if !names.contains(name) {
        Some(quoted_name(kind + " style"@, name, " not found."@))
    } else if ids.len() == 0 {
        Some("No target nodes specified and no active selection."@)
    } else if text_positions_of(nodes, ids).len() == 0 {
        Some("No text nodes found in the target set."@)
    } else {
        None
    }
}

/// A style that is applied: its position, the positions of the texts that it is
/// applied to, and what is said.
#[derive(Debug)]
pub struct AppliedStyle {
    pub style: usize,
    pub positions: Vec<usize>,
    /// How many entries this adds to the history.
    pub entries: usize,
    pub message: String,
}

pub open spec fn is_application(
    nodes: Seq<Node>,
    ids: Seq<u128>,
    names: Seq<Seq<char>>,
    kind: Seq<char>,
    small_kind: Seq<char>,
    name: Seq<char>,
    r: Result<AppliedStyle, String>,
) -> bool {
    match r {
        Err(e) => apply_error(nodes, ids, names, kind, name) == Some(e@),
        Ok(a) => {
            &&& apply_error(nodes, ids, names, kind, name) is None
            &&& is_first_named(names, name, a.style as int)
            &&& a.positions@ == text_positions_of(nodes, ids)
            &&& a.entries == 1
            &&& a.message@ == quoted_name("Applied "@ + small_kind + " style"@, name, " to "@)
                + decimal_text(a.positions@.len()) + " text node(s)."@
        },
    }
}

fn apply_style(
    nodes: &Vec<Node>,
    ids: &Vec<u128>,
    names: &Vec<String>,
    kind: &str,
    small_kind: &str,
    name: &str,
) -> (r: Result<AppliedStyle, String>)
    ensures
        is_application(nodes@, ids@, texts(names@), kind@, small_kind@, name@, r),
{
    let style: usize = match find_name(names, name) {
        None => {
            let label = around_text(kind, " style", "");
            proof {
                reveal_strlit("");
                assert(label@ =~= kind@ + " style"@);
            }
            return Err(quoted_text(label.as_str(), name, " not found."));
        },
        Some(k) => k,
    };
    if ids.len() == 0 {
        return Err("No target nodes specified and no active selection.".to_owned());
    }
    let positions = find_texts(nodes, ids);
    if positions.len() == 0 {
        return Err("No text nodes found in the target set.".to_owned());
    }
    let label = around_text("Applied ", small_kind, " style");
    let head = quoted_text(label.as_str(), name, " to ");
    let mut v = chars_of(head.as_str());
    push_all(&mut v, &number_text(positions.len() as u64));
    push_str(&mut v, " text node(s).");
    Ok(AppliedStyle { style, positions, entries: 1, message: text_of(&v) })
}

/// Applies a character style to the named texts, or to the selected ones.
pub fn apply_character_style(
    nodes: &Vec<Node>,
    selection: &Vec<u128>,
    targets_named: &Vec<String>,
    names: &Vec<String>,
    name: &str,
) -> (r: Result<AppliedStyle, String>)
    ensures
        is_application(
            nodes@,
            targets(nodes@, selection@, texts(targets_named@)),
            texts(names@),
            "Character"@,
            "character"@,
            name@,
            r,
        ),
{
    let ids = resolve_targets(nodes, selection, targets_named);
    apply_style(nodes, &ids, names, "Character", "character", name)
}

/// Applies a paragraph style to the named texts, or to the selected ones.
pub fn apply_paragraph_style(
    nodes: &Vec<Node>,
    selection: &Vec<u128>,
    targets_named: &Vec<String>,
    names: &Vec<String>,
    name: &str,
) -> (r: Result<AppliedStyle, String>)
    ensures
        is_application(
            nodes@,
            targets(nodes@, selection@, texts(targets_named@)),
            texts(names@),
            "Paragraph"@,
            "paragraph"@,
            name@,
            r,
        ),
{
    let ids = resolve_targets(nodes, selection, targets_named);
    apply_style(nodes, &ids, names, "Paragraph", "paragraph", name)
}


/// A style that is saved from a text has all that the text has where nothing is given, and
/// keeps what is given, each part for itself.
pub proof fn law_saved_style_is_that_of_the_text(
    given: CharacterStyleView,
    nodes: Seq<Node>,
    k: int,
    hex: Option<Seq<char>>,
)
    ensures
        ({
            let s = saved_character_style(given, nodes, Some(k), hex);
            let n = nodes[k];
            &&& given.font_family is None ==> s.font_family == Some(n.font_family@)
            &&& given.font_size is None ==> s.font_size == Some(n.text.font_size)
            &&& given.font_weight is None ==> s.font_weight == Some(n.text.font_weight)
            &&& given.letter_spacing is None ==> s.letter_spacing == Some(n.text.letter_spacing)
            &&& given.line_height is None ==> s.line_height == Some(n.text.line_height)
            &&& given.fill_hex is None ==> s.fill_hex == hex
            &&& given.font_family is Some ==> s.font_family == given.font_family
            &&& given.font_size is Some ==> s.font_size == given.font_size
            &&& given.font_weight is Some ==> s.font_weight == given.font_weight
            &&& given.letter_spacing is Some ==> s.letter_spacing == given.letter_spacing
            &&& given.line_height is Some ==> s.line_height == given.line_height
            &&& given.fill_hex is Some ==> s.fill_hex == given.fill_hex
            &&& saved_character_style(s, nodes, Some(k), hex) == (CharacterStyleView {
                name: trim(s.name),
                ..s
            })
        }),
{
}

/// The same of the style of a paragraph.
pub proof fn law_saved_paragraph_is_that_of_the_text(
    given: ParagraphStyleView,
    nodes: Seq<Node>,
    k: int,
)
    ensures
        ({
            let s = saved_paragraph_style(given, nodes, Some(k));
            let n = nodes[k];
            &&& given.align is None ==> s.align == Some(align_text(n.text.align))
            &&& given.line_height is None ==> s.line_height == Some(n.text.line_height)
            &&& given.letter_spacing is None ==> s.letter_spacing == Some(n.text.letter_spacing)
            &&& given.font_size is None ==> s.font_size == Some(n.text.font_size)
            &&& given.font_family is None ==> s.font_family == Some(n.font_family@)
            &&& given.align is Some ==> s.align == given.align
            &&& given.line_height is Some ==> s.line_height == given.line_height
            &&& given.letter_spacing is Some ==> s.letter_spacing == given.letter_spacing
            &&& given.font_size is Some ==> s.font_size == given.font_size
            &&& given.font_family is Some ==> s.font_family == given.font_family
        }),
{
}

} // verus!
