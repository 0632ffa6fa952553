//! The static AppDirectory page: its grid, its tile style and its catalog.
use crate::diagnostic::{diag, diagnosed, Diagnostic, DiagnosticView};
use crate::double::{
    bounded_number, denotes, digit_len, digits_value, in_bounds, is_digit, lemma_denotes_unique,
    quadruple, Double,
};
use crate::jsx::{
    first_foreign, source_attributes, strip_empty_state, strip_unreachable_branches,
    unsupported_attribute_expression,
};
use crate::literals::{
    const_marker, find_char, icon_field, icon_url, law_fields_are_read_as_written, literal_binding,
    literal_field, literal_field_result, primitive_class_list, primitive_classes, quoted_after,
    quoted_result, writes_field,
};
use crate::tailwind::{is_spacing_px, tailwind_space, MAX_SPACING};
use crate::text::{
    chars_of, contains, contains_str, contains_word, find, find_str, first_suffix, has_word,
    lemma_same_words, rfind, rfind_str, slice, split_words, starts_with, starts_with_str, text_of,
    word_suffix, words,
};
use vstd::prelude::*;
use vstd::string::*;
use vstd::utf8::*;

verus! {

/// What follows `prefix` in the last word that starts with it.
pub open spec fn last_suffix(ws: Seq<Seq<char>>, prefix: Seq<char>) -> Option<Seq<char>>
    decreases ws.len(),
{
    if ws.len() == 0 {
        None
    } else if starts_with(ws.last(), prefix) {
        Some(ws.last().skip(prefix.len() as int))
    } else {
        last_suffix(ws.drop_last(), prefix)
    }
}

/// What follows `prefix` in the first word that starts with it and whose rest is
/// no spacing step.
pub open spec fn first_bad_step(ws: Seq<Seq<char>>, prefix: Seq<char>) -> Option<Seq<char>>
    decreases ws.len(),
{
    if ws.len() == 0 {
        None
    } else {
        match first_bad_step(ws.drop_last(), prefix) {
            Some(n) => Some(n),
            None => if starts_with(ws.last(), prefix) && !in_bounds(
                ws.last().skip(prefix.len() as int),
                (Double { bits: 0 }),
                (Double { bits: MAX_SPACING }),
            ) {
                Some(ws.last().skip(prefix.len() as int))
            } else {
                None
            },
        }
    }
}

pub open spec fn bad_step_error(n: Seq<char>) -> DiagnosticView {
    diagnosed(
        "TAILWIND_UNSUPPORTED"@,
        "gap must be a bounded numeric Tailwind spacing token"@,
        n,
    )
}

/// A column count from 1 to 12: digits, with an optional plus sign.
pub open spec fn column_count(n: Seq<char>) -> Option<nat> {
    let t = if n.len() > 0 && n[0] == '+' {
        n.skip(1)
    } else {
        n
    };
    if t.len() > 0 && digit_len(t) == t.len() && 0 < digits_value(t) <= 12 {
        Some(digits_value(t))
    } else {
        None
    }
}

/// The class list of the grid in front of the last `tiles.map`.
pub open spec fn grid_classes(s: Seq<char>) -> Result<Seq<char>, DiagnosticView> {
    match rfind(s, "tiles.map"@) {
        None => Err(
            diagnosed("JSX_UNSUPPORTED"@, "missing tiles.map success branch"@, "tiles.map"@),
        ),
        Some(branch) => match rfind(s.take(branch), "className=\"grid "@) {
            None => Err(
                diagnosed(
                    "TAILWIND_UNSUPPORTED"@,
                    "AppDirectory requires a literal grid className"@,
                    "className"@,
                ),
            ),
            Some(start) => match find(s.skip(start + 11), seq!['"']) {
                None => Err(
                    diagnosed(
                        "JSX_UNSUPPORTED"@,
                        "unterminated className literal"@,
                        "className"@,
                    ),
                ),
                Some(end) => Ok(s.skip(start + 11).take(end)),
            },
        },
    }
}

/// The grid of the page.
#[derive(Debug)]
pub struct LayoutSpec {
    pub gap: Double,
    pub desktop_columns: usize,
}

/// What is returned for the class list of a grid: the last gap and the last
/// column count count, and every gap must be a spacing step.
pub open spec fn grid_result(classes: Seq<char>, r: Result<LayoutSpec, Diagnostic>) -> bool {
    let ws = words(classes);
    let columns = match last_suffix(ws, "lg:grid-cols-"@) {
        Some(n) => column_count(n),
        None => None,
    };
    match first_bad_step(ws, "gap-"@) {
        Some(n) => r matches Err(d) && d@ == bad_step_error(n),
        None => match last_suffix(ws, "gap-"@) {
            None => r matches Err(d) && d@ == diagnosed(
                "TAILWIND_UNSUPPORTED"@,
                "grid must declare gap-N"@,
                classes,
            ),
            Some(gap) => match columns {
                None => r matches Err(d) && d@ == diagnosed(
                    "TAILWIND_UNSUPPORTED"@,
                    "grid must declare lg:grid-cols-N"@,
                    classes,
                ),
                Some(n) => r matches Ok(l) && is_spacing_px(gap, l.gap) && l.desktop_columns == n,
            },
        },
    }
}

proof fn lemma_bad_step_take(ws: Seq<Seq<char>>, prefix: Seq<char>, i: int)
    requires
        0 <= i <= ws.len(),
        first_bad_step(ws.take(i), prefix) is Some,
    ensures
        first_bad_step(ws, prefix) == first_bad_step(ws.take(i), prefix),
    decreases ws.len() - i,
{
    if i == ws.len() {
        assert(ws.take(i) =~= ws);
    } else {
        assert(ws.take(i + 1).drop_last() =~= ws.take(i));
        lemma_bad_step_take(ws, prefix, i + 1);
    }
}

fn read_columns(n: &Vec<char>) -> (r: Option<usize>)
    ensures
        match r {
            Some(c) => column_count(n@) == Some(c as nat),
            None => column_count(n@) is None,
        },
{
    let start: usize = if n.len() > 0 && n[0] == '+' {
        1
    } else {
        0
    };
    let t = slice(n, start, n.len());
    proof {
        if start == 1 {
            assert(t@ =~= n@.skip(1));
        } else {
            assert(t@ =~= n@);
        }
    }
    if t.len() == 0 {
        return None;
    }
    let mut value: usize = 0;
    let mut i: usize = 0;
    assert(t@.take(0) =~= Seq::<char>::empty());
    assert(t@.skip(0) =~= t@);
    while i < t.len()
        invariant
            i <= t.len(),
            t@ == (if n@.len() > 0 && n@[0] == '+' {
                n@.skip(1)
            } else {
                n@
            }),
            digit_len(t@) == i + digit_len(t@.skip(i as int)),
            value <= 1299,
            value <= 129 ==> value == digits_value(t@.take(i as int)),
            value > 129 ==> digits_value(t@.take(i as int)) > 12,
        decreases t.len() - i,
    {
        proof {
            assert(t@.skip(i as int)[0] == t@[i as int]);
            assert(t@.skip(i as int).skip(1) =~= t@.skip(i + 1));
            assert(t@.take(i + 1).drop_last() =~= t@.take(i as int));
            assert(t@.take(i + 1).last() == t@[i as int]);
        }
        if t[i] < '0' || t[i] > '9' {
            assert(!is_digit(t@.skip(i as int)[0]));
            assert(digit_len(t@.skip(i as int)) == 0);
            return None;
        }
        if value <= 129 {
            value = value * 10 + (t[i] as u32 - '0' as u32) as usize;
        }
        i += 1;
    }
    assert(t@.take(t@.len() as int) =~= t@);
    assert(digit_len(t@.skip(i as int)) == 0);
    if 0 < value && value <= 12 {
        Some(value)
    } else {
        None
    }
}

fn read_grid_classes(all: &Vec<char>) -> (r: Result<Vec<char>, Diagnostic>)
    ensures
        match r {
            Ok(v) => grid_classes(all@) == Ok::<Seq<char>, DiagnosticView>(v@),
            Err(d) => grid_classes(all@) == Err::<Seq<char>, DiagnosticView>(d@),
        },
{
    proof {
        reveal_strlit("className=\"grid ");
    }
    match rfind_str(all, "tiles.map") {
        None => Err(diag("JSX_UNSUPPORTED", "missing tiles.map success branch", "tiles.map")),
        Some(branch) => {
            let front = slice(all, 0, branch);
            assert(front@ =~= all@.take(branch as int));
            match rfind_str(&front, "className=\"grid ") {
                None => Err(
                    diag(
                        "TAILWIND_UNSUPPORTED",
                        "AppDirectory requires a literal grid className",
                        "className",
                    ),
                ),
                Some(start) => match find_char(all, '"', start + 11) {
                    None => Err(
                        diag("JSX_UNSUPPORTED", "unterminated className literal", "className"),
                    ),
                    Some(end) => {
                        let classes = slice(all, start + 11, end);
                        assert(classes@ =~= all@.skip(start + 11).take(end - (start + 11)));
                        Ok(classes)
                    },
                },
            }
        },
    }
}

/// The grid of the successful branch of the page.
pub fn parse_grid_layout(source: &str) -> (r: Result<LayoutSpec, Diagnostic>)
    ensures
        match grid_classes(source@) {
            Err(e) => r matches Err(d) && d@ == e,
            Ok(classes) => grid_result(classes, r),
        },
{
    proof {
        reveal_strlit("gap-");
        reveal_strlit("lg:grid-cols-");
    }
    let classes = match read_grid_classes(&chars_of(source)) {
        Ok(v) => v,
        Err(d) => {
            return Err(d);
        },
    };
    let parts = split_words(&classes);
    let ghost ws = words(classes@);
    let mut gap: Option<Double> = None;
    let mut columns: Option<usize> = None;
    let mut i: usize = 0;
    assert(ws.take(0) =~= Seq::<Seq<char>>::empty());
    while i < parts.len()
        invariant
            i <= parts.len(),
            "gap-"@.len() == 4,
            "lg:grid-cols-"@.len() == 13,
            grid_classes(source@) == Ok::<Seq<char>, DiagnosticView>(classes@),
            ws == words(classes@),
            parts@.len() == ws.len(),
            forall|k: int| 0 <= k < parts@.len() ==> (#[trigger] parts@[k])@ == ws[k],
            first_bad_step(ws.take(i as int), "gap-"@) is None,
            match gap {
                None => last_suffix(ws.take(i as int), "gap-"@) is None,
                Some(y) => last_suffix(ws.take(i as int), "gap-"@) matches Some(n)
                    && is_spacing_px(n, y),
            },
            match columns {
                None => match last_suffix(ws.take(i as int), "lg:grid-cols-"@) {
                    Some(n) => column_count(n) is None,
                    None => true,
                },
                Some(c) => last_suffix(ws.take(i as int), "lg:grid-cols-"@) matches Some(n)
                    && column_count(n) == Some(c as nat),
            },
        decreases parts.len() - i,
    {
        proof {
            assert(ws.take(i + 1).drop_last() =~= ws.take(i as int));
            assert(ws.take(i + 1).last() == ws[i as int]);
            assert(parts@[i as int]@ == ws[i as int]);
        }
        if starts_with_str(&parts[i], "gap-") {
            let n = slice(&parts[i], 4, parts[i].len());
            assert(n@ =~= ws[i as int].skip(4));
            let text = text_of(&n);
            match tailwind_space(text.as_str()) {
                Ok(y) => {
                    gap = Some(y);
                },
                Err(d) => {
                    proof {
                        assert(first_bad_step(ws.take(i + 1), "gap-"@) == Some(n@));
                        lemma_bad_step_take(ws, "gap-"@, i + 1);
                    }
                    return Err(d);
                },
            }
        }
        if starts_with_str(&parts[i], "lg:grid-cols-") {
            let n = slice(&parts[i], 13, parts[i].len());
            assert(n@ =~= ws[i as int].skip(13));
            columns = read_columns(&n);
        }
        i += 1;
    }
    assert(ws.take(ws.len() as int) =~= ws);
    let shown = text_of(&classes);
    match gap {
        None => Err(diag("TAILWIND_UNSUPPORTED", "grid must declare gap-N", shown.as_str())),
        Some(gap) => match columns {
            None => Err(
                diag("TAILWIND_UNSUPPORTED", "grid must declare lg:grid-cols-N", shown.as_str()),
            ),
            Some(desktop_columns) => Ok(LayoutSpec { gap, desktop_columns }),
        },
    }
}

/// The radius and the border width of a card, and its base classes.
pub open spec fn card_primitive(s: Seq<char>) -> Result<(u32, u32, Seq<char>), DiagnosticView> {
    match primitive_class_list(s, "Card"@) {
        Err(d) => Err(d),
        Ok(classes) => {
            let ws = words(classes);
            if !has_word(ws, "bg-card"@) {
                Err(missing_card_class("bg-card"@))
            } else if !has_word(ws, "text-card-foreground"@) {
                Err(missing_card_class("text-card-foreground"@))
            } else if !has_word(ws, "shadow"@) {
                Err(missing_card_class("shadow"@))
            } else if !has_word(ws, "rounded-xl"@) && !has_word(ws, "rounded-lg"@) {
                Err(
                    diagnosed(
                        "CARD_PRIMITIVE_UNSUPPORTED"@,
                        "Card requires rounded-lg or rounded-xl"@,
                        classes,
                    ),
                )
            } else if !has_word(ws, "border-2"@) && !has_word(ws, "border"@) {
                Err(
                    diagnosed(
                        "CARD_PRIMITIVE_UNSUPPORTED"@,
                        "Card requires a bounded border utility"@,
                        classes,
                    ),
                )
            } else {
                Ok(
                    (
                        if has_word(ws, "rounded-xl"@) {
                            12u32
                        } else {
                            8u32
                        },
                        if has_word(ws, "border-2"@) {
                            2u32
                        } else {
                            1u32
                        },
                        classes,
                    ),
                )
            }
        },
    }
}

pub open spec fn missing_card_class(class: Seq<char>) -> DiagnosticView {
    diagnosed(
        "CARD_PRIMITIVE_UNSUPPORTED"@,
        "Card base classes are outside the bounded primitive"@,
        class,
    )
}

/// The radius and the border width, in pixels, of the shared card, and its base
/// classes.
pub fn parse_card_primitive<'a>(source: &'a str) -> (r: Result<(u32, u32, &'a str), Diagnostic>)
    ensures
        match r {
            Ok(c) => card_primitive(source@) == Ok::<(u32, u32, Seq<char>), DiagnosticView>(
                (c.0, c.1, c.2@),
            ),
            Err(d) => card_primitive(source@) == Err::<(u32, u32, Seq<char>), DiagnosticView>(d@),
        },
{
    let classes = match primitive_classes(source, "Card") {
        Ok(c) => c,
        Err(d) => {
            return Err(d);
        },
    };
    let list = chars_of(classes);
    if !contains_word(&list, "bg-card") {
        return Err(
            diag(
                "CARD_PRIMITIVE_UNSUPPORTED",
                "Card base classes are outside the bounded primitive",
                "bg-card",
            ),
        );
    }
    if !contains_word(&list, "text-card-foreground") {
        return Err(
            diag(
                "CARD_PRIMITIVE_UNSUPPORTED",
                "Card base classes are outside the bounded primitive",
                "text-card-foreground",
            ),
        );
    }
    if !contains_word(&list, "shadow") {
        return Err(
            diag(
                "CARD_PRIMITIVE_UNSUPPORTED",
                "Card base classes are outside the bounded primitive",
                "shadow",
            ),
        );
    }
    let radius: u32 = if contains_word(&list, "rounded-xl") {
        12
    } else if contains_word(&list, "rounded-lg") {
        8
    } else {
        return Err(
            diag(
                "CARD_PRIMITIVE_UNSUPPORTED",
                "Card requires rounded-lg or rounded-xl",
                classes,
            ),
        );
    };
    let border: u32 = if contains_word(&list, "border-2") {
        2
    } else if contains_word(&list, "border") {
        1
    } else {
        return Err(
            diag(
                "CARD_PRIMITIVE_UNSUPPORTED",
                "Card requires a bounded border utility",
                classes,
            ),
        );
    };
    Ok((radius, border, classes))
}

/// Which paddings the classes set: that of the top, and that of the other sides.
pub struct Paddings {
    pub top: Option<Seq<char>>,
    pub rest: Option<Seq<char>>,
}

/// The paddings after a further class: `p-N` sets all sides, `pt-N` the top.
pub open spec fn pad(before: Paddings, class: Seq<char>) -> Paddings {
    if starts_with(class, "p-"@) {
        Paddings { top: Some(class.skip(2)), rest: Some(class.skip(2)) }
    } else if starts_with(class, "pt-"@) {
        Paddings { top: Some(class.skip(3)), rest: before.rest }
    } else {
        before
    }
}

/// The spacing step of a padding class.
pub open spec fn padding_step_of(class: Seq<char>) -> Option<Seq<char>> {
    if starts_with(class, "p-"@) {
        Some(class.skip(2))
    } else if starts_with(class, "pt-"@) {
        Some(class.skip(3))
    } else {
        None
    }
}

/// The paddings that the classes set, or the first padding that is no spacing step.
pub open spec fn paddings(ws: Seq<Seq<char>>) -> Result<Paddings, Seq<char>>
    decreases ws.len(),
{
    if ws.len() == 0 {
        Ok(Paddings { top: None, rest: None })
    } else {
        match paddings(ws.drop_last()) {
            Err(n) => Err(n),
            Ok(p) => match padding_step_of(ws.last()) {
                Some(n) if !in_bounds(n, (Double { bits: 0 }), (Double { bits: MAX_SPACING })) => Err(
                    n,
                ),
                _ => Ok(pad(p, ws.last())),
            },
        }
    }
}

/// All sides have the same padding.
pub open spec fn uniform(p: Paddings) -> bool {
    p.top is Some && p.rest is Some && same_number(p.top->0, p.rest->0)
}

/// Two texts denote the same number.
pub open spec fn same_number(a: Seq<char>, b: Seq<char>) -> bool {
    exists|x: Double, y: Double|
        #![trigger denotes(a, x), denotes(b, y)]
        denotes(a, x) && denotes(b, y) && x.key() == y.key()
}

/// `x` is the number of a padding, where there is one.
pub open spec fn pads(step: Option<Seq<char>>, x: Option<Double>) -> bool {
    match step {
        None => x is None,
        Some(n) => x matches Some(d) && d.wf() && denotes(n, d) && 0 <= d.key() <= MAX_SPACING,
    }
}

proof fn lemma_paddings_take(ws: Seq<Seq<char>>, i: int)
    requires
        0 <= i <= ws.len(),
        paddings(ws.take(i)) is Err,
    ensures
        paddings(ws) == paddings(ws.take(i)),
    decreases ws.len() - i,
{
    if i == ws.len() {
        assert(ws.take(i) =~= ws);
    } else {
        assert(ws.take(i + 1).drop_last() =~= ws.take(i));
        lemma_paddings_take(ws, i + 1);
    }
}

/// The numbers of the paddings that the classes set.
fn read_paddings(parts: &Vec<Vec<char>>, Ghost(ws): Ghost<Seq<Seq<char>>>) -> (r: Result<
    (Option<Double>, Option<Double>),
    Diagnostic,
>)
    requires
        parts@.len() == ws.len(),
        forall|k: int| 0 <= k < parts@.len() ==> (#[trigger] parts@[k])@ == ws[k],
    ensures
        match paddings(ws) {
            Err(n) => r matches Err(d) && d@ == bad_step_error(n),
            Ok(p) => r matches Ok(x) && pads(p.top, x.0) && pads(p.rest, x.1),
        },
{
    proof {
        reveal_strlit("p-");
        reveal_strlit("pt-");
    }
    let mut top: Option<Double> = None;
    let mut rest: Option<Double> = None;
    let mut i: usize = 0;
    assert(ws.take(0) =~= Seq::<Seq<char>>::empty());
    while i < parts.len()
        invariant
            i <= parts.len(),
            "p-"@.len() == 2,
            "pt-"@.len() == 3,
            parts@.len() == ws.len(),
            forall|k: int| 0 <= k < parts@.len() ==> (#[trigger] parts@[k])@ == ws[k],
            paddings(ws.take(i as int)) matches Ok(p) && pads(p.top, top) && pads(p.rest, rest),
        decreases parts.len() - i,
    {
        proof {
            assert(ws.take(i + 1).drop_last() =~= ws.take(i as int));
            assert(ws.take(i + 1).last() == ws[i as int]);
            assert(parts@[i as int]@ == ws[i as int]);
        }
        let all_sides = starts_with_str(&parts[i], "p-");
        let top_side = !all_sides && starts_with_str(&parts[i], "pt-");
        if all_sides || top_side {
            let width: usize = if all_sides {
                2
            } else {
                3
            };
            let n = slice(&parts[i], width, parts[i].len());
            assert(n@ =~= ws[i as int].skip(width as int));
            let text = text_of(&n);
            match bounded_number(
                text.as_str(),
                (Double { bits: 0 }),
                (Double { bits: MAX_SPACING }),
            ) {
                None => {
                    proof {
                        assert(paddings(ws.take(i + 1)) == Err::<Paddings, Seq<char>>(n@));
                        lemma_paddings_take(ws, i + 1);
                    }
                    return Err(
                        diag(
                            "TAILWIND_UNSUPPORTED",
                            "gap must be a bounded numeric Tailwind spacing token",
                            text.as_str(),
                        ),
                    );
                },
                Some(x) => {
                    assert(in_bounds(n@, (Double { bits: 0 }), (Double { bits: MAX_SPACING })));
                    top = Some(x);
                    if all_sides {
                        rest = Some(x);
                    }
                },
            }
        }
        i += 1;
    }
    assert(ws.take(ws.len() as int) =~= ws);
    Ok((top, rest))
}

/// The class list of the tile's content.
pub open spec fn content_classes(s: Seq<char>) -> Result<Seq<char>, DiagnosticView> {
    match find(s, "className=\"flex items-center"@) {
        None => Err(
            diagnosed(
                "TAILWIND_UNSUPPORTED"@,
                "missing literal CardContent layout classes"@,
                "CardContent"@,
            ),
        ),
        Some(i) => match find(s.skip(i + 21), seq!['"']) {
            None => Err(
                diagnosed("JSX_UNSUPPORTED"@, "unterminated CardContent className"@, "CardContent"@),
            ),
            Some(j) => Ok(s.subrange(i + 11, i + 21 + j)),
        },
    }
}

fn read_content_classes(all: &Vec<char>) -> (r: Result<Vec<char>, Diagnostic>)
    ensures
        match r {
            Ok(v) => content_classes(all@) == Ok::<Seq<char>, DiagnosticView>(v@),
            Err(d) => content_classes(all@) == Err::<Seq<char>, DiagnosticView>(d@),
        },
{
    proof {
        reveal_strlit("className=\"flex items-center");
    }
    match find_str(all, "className=\"flex items-center") {
        None => Err(
            diag(
                "TAILWIND_UNSUPPORTED",
                "missing literal CardContent layout classes",
                "CardContent",
            ),
        ),
        Some(i) => match find_char(all, '"', i + 21) {
            None => Err(
                diag("JSX_UNSUPPORTED", "unterminated CardContent className", "CardContent"),
            ),
            Some(end) => Ok(slice(all, i + 11, end)),
        },
    }
}

/// How a tile looks. Sizes that are not spacing steps are whole pixels.
#[derive(Debug)]
pub struct TileStyle {
    pub padding: Double,
    pub content_gap: Double,
    pub badge: u32,
    pub icon_radius: u32,
    pub card_radius: u32,
    pub card_border_width: u32,
    pub title_size: u32,
    pub title_weight: u16,
    pub description_size: u32,
}

/// The sizes that the page text itself names: badge, icon radius, title weight
/// and description size.
pub open spec fn named_sizes(s: Seq<char>) -> Result<(u32, u32, u16, u32), DiagnosticView> {
    if !contains(s, "h-12 w-12"@) && !contains(s, "h-16 w-16"@) {
        Err(diagnosed("TAILWIND_UNSUPPORTED"@, "icon requires matching h-N w-N"@, "img"@))
    } else if !contains(s, "rounded-lg"@) && !contains(s, "rounded-xl"@) {
        Err(diagnosed("TAILWIND_UNSUPPORTED"@, "icon requires rounded-lg/xl"@, "img"@))
    } else {
        Ok(
            (
                if contains(s, "h-12 w-12"@) {
                    48u32
                } else {
                    64u32
                },
                if contains(s, "rounded-lg"@) {
                    8u32
                } else {
                    12u32
                },
                if contains(s, "font-bold"@) {
                    700u16
                } else if contains(s, "font-semibold"@) {
                    600u16
                } else {
                    400u16
                },
                if contains(s, "text-sm"@) {
                    14u32
                } else {
                    16u32
                },
            ),
        )
    }
}

/// What is returned for a page with the content classes `classes`, a card module
/// whose content primitive has the classes `base`, and the card `card`.
pub open spec fn tile_result(
    s: Seq<char>,
    classes: Seq<char>,
    base: Seq<char>,
    card: Result<(u32, u32, Seq<char>), DiagnosticView>,
    r: Result<TileStyle, Diagnostic>,
) -> bool {
    match paddings(words(base) + words(classes)) {
        Err(n) => r matches Err(d) && d@ == bad_step_error(n),
        Ok(p) => if !uniform(p) {
            r matches Err(d) && d@ == diagnosed(
                "CARD_CONTENT_UNSUPPORTED"@,
                "merged CardContent padding must be uniform"@,
                base,
            )
        } else {
            match first_suffix(words(classes), "gap-"@) {
                None => r matches Err(d) && d@ == diagnosed(
                    "TAILWIND_UNSUPPORTED"@,
                    "CardContent requires gap-N"@,
                    "gap"@,
                ),
                Some(gap) => if !in_bounds(
                    gap,
                    (Double { bits: 0 }),
                    (Double { bits: MAX_SPACING }),
                ) {
                    r matches Err(d) && d@ == bad_step_error(gap)
                } else {
                    match named_sizes(s) {
                        Err(e) => r matches Err(d) && d@ == e,
                        Ok(sizes) => match card {
                            Err(e) => r matches Err(d) && d@ == e,
                            Ok(c) => r matches Ok(t) && {
                                &&& is_spacing_px(p.top->0, t.padding)
                                &&& is_spacing_px(gap, t.content_gap)
                                &&& t.badge == sizes.0
                                &&& t.icon_radius == sizes.1
                                &&& t.title_weight == sizes.2
                                &&& t.description_size == sizes.3
                                &&& t.card_radius == c.0
                                &&& t.card_border_width == c.1
                                &&& t.title_size == 16
                            },
                        },
                    }
                },
            }
        },
    }
}

fn read_named_sizes(all: &Vec<char>) -> (r: Result<(u32, u32, u16, u32), Diagnostic>)
    ensures
        match r {
            Ok(v) => named_sizes(all@) == Ok::<(u32, u32, u16, u32), DiagnosticView>(v),
            Err(d) => named_sizes(all@) == Err::<(u32, u32, u16, u32), DiagnosticView>(d@),
        },
{
    let badge: u32 = if contains_str(all, "h-12 w-12") {
        48
    } else if contains_str(all, "h-16 w-16") {
        64
    } else {
        return Err(diag("TAILWIND_UNSUPPORTED", "icon requires matching h-N w-N", "img"));
    };
    let radius: u32 = if contains_str(all, "rounded-lg") {
        8
    } else if contains_str(all, "rounded-xl") {
        12
    } else {
        return Err(diag("TAILWIND_UNSUPPORTED", "icon requires rounded-lg/xl", "img"));
    };
    let weight: u16 = if contains_str(all, "font-bold") {
        700
    } else if contains_str(all, "font-semibold") {
        600
    } else {
        400
    };
    let description: u32 = if contains_str(all, "text-sm") {
        14
    } else {
        16
    };
    Ok((badge, radius, weight, description))
}

/// The style of a tile, from the page and from the shared card module.
pub fn parse_tile_style(source: &str, card_source: &str) -> (r: Result<TileStyle, Diagnostic>)
    ensures
        match content_classes(source@) {
            Err(e) => r matches Err(d) && d@ == e,
            Ok(classes) => match primitive_class_list(card_source@, "CardContent"@) {
                Err(e) => r matches Err(d) && d@ == e,
                Ok(base) => tile_result(
                    source@,
                    classes,
                    base,
                    card_primitive(card_source@),
                    r,
                ),
            },
        },
{
    let all = chars_of(source);
    let classes = match read_content_classes(&all) {
        Ok(v) => v,
        Err(d) => {
            return Err(d);
        },
    };
    let base = match primitive_classes(card_source, "CardContent") {
        Ok(c) => c,
        Err(d) => {
            return Err(d);
        },
    };
    let own = split_words(&classes);
    let mut parts = split_words(&chars_of(base));
    let ghost ws = words(base@) + words(classes@);
    let ghost front = parts@;
    let mut i: usize = 0;
    while i < own.len()
        invariant
            i <= own.len(),
            parts@.len() == front.len() + i,
            front.len() == words(base@).len(),
            own@.len() == words(classes@).len(),
            ws == words(base@) + words(classes@),
            forall|k: int| 0 <= k < own@.len() ==> (#[trigger] own@[k])@ == words(classes@)[k],
            forall|k: int| 0 <= k < parts@.len() ==> (#[trigger] parts@[k])@ == ws[k],
        decreases own.len() - i,
    {
        let copy = slice(&own[i], 0, own[i].len());
        assert(copy@ =~= own@[i as int]@);
        assert(ws[front.len() + i] == words(classes@)[i as int]);
        parts.push(copy);
        i += 1;
    }
    let (top, rest) = match read_paddings(&parts, Ghost(ws)) {
        Ok(p) => p,
        Err(d) => {
            return Err(d);
        },
    };
    let ghost p = paddings(ws)->Ok_0;
    let same = match (top, rest) {
        (Some(x), Some(y)) => {
            let eq = x.equals(y);
            proof {
                if same_number(p.top->0, p.rest->0) {
                    let (a, b) = choose|a: Double, b: Double|
                        #![trigger denotes(p.top->0, a), denotes(p.rest->0, b)]
                        denotes(p.top->0, a) && denotes(p.rest->0, b) && a.key() == b.key();
                    lemma_denotes_unique(p.top->0, x, a);
                    lemma_denotes_unique(p.rest->0, y, b);
                }
            }
            eq
        },
        _ => false,
    };
    assert(same == uniform(p));
    let padding = match top {
        Some(x) if same => {
            let y = quadruple(x);
            assert(is_spacing_px(p.top->0, y));
            y
        },
        _ => {
            return Err(
                diag(
                    "CARD_CONTENT_UNSUPPORTED",
                    "merged CardContent padding must be uniform",
                    base,
                ),
            );
        },
    };
    proof {
        lemma_same_words(own@, words(classes@));
    }
    let content_gap = match word_suffix(&own, "gap-") {
        None => {
            return Err(diag("TAILWIND_UNSUPPORTED", "CardContent requires gap-N", "gap"));
        },
        Some(n) => {
            let text = text_of(&n);
            match tailwind_space(text.as_str()) {
                Ok(y) => y,
                Err(d) => {
                    return Err(d);
                },
            }
        },
    };
    let (badge, icon_radius, title_weight, description_size) = match read_named_sizes(&all) {
        Ok(v) => v,
        Err(d) => {
            return Err(d);
        },
    };
    let (card_radius, card_border_width, _) = match parse_card_primitive(card_source) {
        Ok(c) => c,
        Err(d) => {
            return Err(d);
        },
    };
    Ok(
        TileStyle {
            padding,
            content_gap,
            badge,
            icon_radius,
            card_radius,
            card_border_width,
            title_size: 16,
            title_weight,
            description_size,
        },
    )
}

/// The most entries that a catalog may have.
pub const MAX_TILES: usize = 64;

/// How far a list of object literals has been read: the braces that are open,
/// where the outermost of them stands, and the objects that are complete.
pub struct ObjectScan {
    pub depth: nat,
    pub open: int,
    pub found: Seq<(int, int)>,
}

/// The first `n` characters of `body`, read. There is none where a brace closes
/// that was not opened.
pub open spec fn scan_objects(body: Seq<char>, n: int) -> Option<ObjectScan>
    decreases n,
{
    if n <= 0 {
        Some(ObjectScan { depth: 0, open: 0, found: Seq::empty() })
    } else {
        match scan_objects(body, n - 1) {
            None => None,
            Some(st) => if body[n - 1] == '{' {
                Some(
                    ObjectScan {
                        depth: st.depth + 1,
                        open: if st.depth == 0 {
                            n - 1
                        } else {
                            st.open
                        },
                        found: st.found,
                    },
                )
            } else if body[n - 1] == '}' {
                if st.depth == 0 {
                    None
                } else {
                    Some(
                        ObjectScan {
                            depth: (st.depth - 1) as nat,
                            open: st.open,
                            found: if st.depth == 1 {
                                st.found.push((st.open, n))
                            } else {
                                st.found
                            },
                        },
                    )
                }
            } else {
                Some(st)
            },
        }
    }
}

/// A catalog entry.
#[verifier::ext_equal]
pub struct TileView {
    pub name: Seq<char>,
    pub description: Seq<char>,
    pub icon: Seq<char>,
    pub url: Seq<char>,
}

#[derive(Debug)]
pub struct ImportedTile {
    pub name: String,
    pub description: String,
    pub icon: String,
    pub url: String,
}

impl View for ImportedTile {
    type V = TileView;

    open spec fn view(&self) -> TileView {
        TileView {
            name: self.name@,
            description: self.description@,
            icon: self.icon@,
            url: self.url@,
        }
    }
}

/// The entry that an object literal writes.
pub open spec fn tile_of(object: Seq<char>, origin: Seq<char>) -> Result<TileView, DiagnosticView> {
    match literal_field_result(object, "name"@) {
        Err(d) => Err(d),
        Ok(name) => match literal_field_result(object, "description"@) {
            Err(d) => Err(d),
            Ok(description) => match icon_url(object, origin) {
                Err(d) => Err(d),
                Ok(icon) => match literal_field_result(object, "url"@) {
                    Err(d) => Err(d),
                    Ok(url) => Ok(TileView { name, description, icon, url }),
                },
            },
        },
    }
}

/// The entries that the objects of `body` write, or the first error.
pub open spec fn tiles_of(body: Seq<char>, found: Seq<(int, int)>, origin: Seq<char>) -> Result<
    Seq<TileView>,
    DiagnosticView,
>
    decreases found.len(),
{
    if found.len() == 0 {
        Ok(Seq::empty())
    } else {
        match tiles_of(body, found.drop_last(), origin) {
            Err(d) => Err(d),
            Ok(ts) => match tile_of(body.subrange(found.last().0, found.last().1), origin) {
                Err(d) => Err(d),
                Ok(t) => Ok(ts.push(t)),
            },
        }
    }
}

/// The literal between `const SUITE_APPS = [` and the next `];` at a line's end.
pub open spec fn catalog_body(s: Seq<char>) -> Result<Seq<char>, DiagnosticView> {
    match find(s, "const SUITE_APPS = ["@) {
        None => Err(
            diagnosed(
                "CATALOG_UNSUPPORTED"@,
                "missing literal SUITE_APPS declaration"@,
                "SUITE_APPS"@,
            ),
        ),
        Some(start) => match find(s.skip(start), "];\n"@) {
            None => Err(
                diagnosed(
                    "CATALOG_UNSUPPORTED"@,
                    "unterminated SUITE_APPS literal"@,
                    "SUITE_APPS"@,
                ),
            ),
            Some(end) => Ok(s.skip(start).take(end)),
        },
    }
}

/// The objects of a catalog's body: at least one and at most 64, all complete.
pub open spec fn catalog_objects(body: Seq<char>) -> Result<Seq<(int, int)>, DiagnosticView> {
    match scan_objects(body, body.len() as int) {
        None => Err(
            diagnosed("CATALOG_UNSUPPORTED"@, "unbalanced object literal"@, "SUITE_APPS"@),
        ),
        Some(st) => if st.depth != 0 || st.found.len() == 0 {
            Err(
                diagnosed(
                    "CATALOG_UNSUPPORTED"@,
                    "SUITE_APPS must contain object literals"@,
                    "SUITE_APPS"@,
                ),
            )
        } else if st.found.len() > MAX_TILES {
            Err(
                diagnosed(
                    "CATALOG_LIMIT"@,
                    "SUITE_APPS contains more than 64 entries"@,
                    "SUITE_APPS"@,
                ),
            )
        } else {
            Ok(st.found)
        },
    }
}

/// The entries of a catalog.
pub open spec fn suite_apps(s: Seq<char>) -> Result<Seq<TileView>, DiagnosticView> {
    match quoted_result(
        quoted_after(s, const_marker("ICON_ORIGIN"@)),
        diagnosed("CATALOG_UNSUPPORTED"@, "missing required literal binding"@, "ICON_ORIGIN"@),
        diagnosed("CATALOG_DYNAMIC"@, "binding must be a string literal"@, "ICON_ORIGIN"@),
        diagnosed("CATALOG_UNSUPPORTED"@, "unterminated binding literal"@, "ICON_ORIGIN"@),
    ) {
        Err(d) => Err(d),
        Ok(origin) => match catalog_body(s) {
            Err(d) => Err(d),
            Ok(body) => match catalog_objects(body) {
                Err(d) => Err(d),
                Ok(found) => tiles_of(body, found, origin),
            },
        },
    }
}

fn read_catalog_body(all: &Vec<char>) -> (r: Result<Vec<char>, Diagnostic>)
    ensures
        match r {
            Ok(v) => catalog_body(all@) == Ok::<Seq<char>, DiagnosticView>(v@),
            Err(d) => catalog_body(all@) == Err::<Seq<char>, DiagnosticView>(d@),
        },
{
    match find_str(all, "const SUITE_APPS = [") {
        None => Err(
            diag("CATALOG_UNSUPPORTED", "missing literal SUITE_APPS declaration", "SUITE_APPS"),
        ),
        Some(start) => {
            let tail = slice(all, start, all.len());
            assert(tail@ =~= all@.skip(start as int));
            match find_str(&tail, "];\n") {
                None => Err(
                    diag("CATALOG_UNSUPPORTED", "unterminated SUITE_APPS literal", "SUITE_APPS"),
                ),
                Some(end) => {
                    let body = slice(&tail, 0, end);
                    assert(body@ =~= tail@.take(end as int));
                    Ok(body)
                },
            }
        },
    }
}

proof fn lemma_scan_stops(body: Seq<char>, i: int, n: int)
    requires
        0 <= i <= n,
        scan_objects(body, i) is None,
    ensures
        scan_objects(body, n) is None,
    decreases n - i,
{
    if i < n {
        lemma_scan_stops(body, i, n - 1);
    }
}

/// `found` are the ranges `spec`, and all lie in a text of length `len`.
spec fn same_ranges(found: Seq<(usize, usize)>, ranges: Seq<(int, int)>, len: int) -> bool {
    &&& found.len() == ranges.len()
    &&& forall|k: int|
        0 <= k < found.len() ==> {
            &&& (#[trigger] found[k]).0 == ranges[k].0
            &&& found[k].1 == ranges[k].1
            &&& found[k].0 <= found[k].1 <= len
        }
}

fn read_objects(body: &Vec<char>) -> (r: Result<Vec<(usize, usize)>, Diagnostic>)
    ensures
        match r {
            Ok(v) => catalog_objects(body@) matches Ok(found) && same_ranges(
                v@,
                found,
                body@.len() as int,
            ),
            Err(d) => catalog_objects(body@) == Err::<Seq<(int, int)>, DiagnosticView>(d@),
        },
{
    let mut found: Vec<(usize, usize)> = Vec::new();
    let mut depth: usize = 0;
    let mut open: usize = 0;
    let mut i: usize = 0;
    while i < body.len()
        invariant
            i <= body.len(),
            depth <= i,
            open <= i,
            scan_objects(body@, i as int) matches Some(st) && st.depth == depth && st.open == open
                && same_ranges(found@, st.found, body@.len() as int),
        decreases body.len() - i,
    {
        if body[i] == '{' {
            if depth == 0 {
                open = i;
            }
            depth += 1;
        } else if body[i] == '}' {
            if depth == 0 {
                proof {
                    assert(scan_objects(body@, i + 1) is None);
                    lemma_scan_stops(body@, i + 1, body@.len() as int);
                }
                return Err(diag("CATALOG_UNSUPPORTED", "unbalanced object literal", "SUITE_APPS"));
            }
            depth -= 1;
            if depth == 0 {
                found.push((open, i + 1));
            }
        }
        i += 1;
    }
    if depth != 0 || found.len() == 0 {
        return Err(
            diag("CATALOG_UNSUPPORTED", "SUITE_APPS must contain object literals", "SUITE_APPS"),
        );
    }
    if found.len() > MAX_TILES {
        return Err(diag("CATALOG_LIMIT", "SUITE_APPS contains more than 64 entries", "SUITE_APPS"));
    }
    Ok(found)
}

fn read_tile(object: &str, origin: &str) -> (r: Result<ImportedTile, Diagnostic>)
    ensures
        match r {
            Ok(t) => tile_of(object@, origin@) == Ok::<TileView, DiagnosticView>(t@),
            Err(d) => tile_of(object@, origin@) == Err::<TileView, DiagnosticView>(d@),
        },
{
    let name = match literal_field(object, "name") {
        Ok(v) => v,
        Err(d) => {
            return Err(d);
        },
    };
    let description = match literal_field(object, "description") {
        Ok(v) => v,
        Err(d) => {
            return Err(d);
        },
    };
    let icon = match icon_field(object, origin) {
        Ok(v) => v,
        Err(d) => {
            return Err(d);
        },
    };
    let url = match literal_field(object, "url") {
        Ok(v) => v,
        Err(d) => {
            return Err(d);
        },
    };
    Ok(ImportedTile { name, description, icon, url })
}

proof fn lemma_tiles_take(body: Seq<char>, found: Seq<(int, int)>, origin: Seq<char>, i: int)
    requires
        0 <= i <= found.len(),
        tiles_of(body, found.take(i), origin) is Err,
    ensures
        tiles_of(body, found, origin) == tiles_of(body, found.take(i), origin),
    decreases found.len() - i,
{
    if i == found.len() {
        assert(found.take(i) =~= found);
    } else {
        assert(found.take(i + 1).drop_last() =~= found.take(i));
        lemma_tiles_take(body, found, origin, i + 1);
    }
}

/// The entries of the catalog `const SUITE_APPS = [{ name: '', icon: '', url: '',
/// description: '' }, ...];`. Every field must be a literal.
pub fn parse_suite_apps(source: &str) -> (r: Result<Vec<ImportedTile>, Diagnostic>)
    ensures
        match r {
            Ok(v) => suite_apps(source@) == Ok::<Seq<TileView>, DiagnosticView>(
                v@.map_values(|t: ImportedTile| t@),
            ),
            Err(d) => suite_apps(source@) == Err::<Seq<TileView>, DiagnosticView>(d@),
        },
{
    let origin = match literal_binding(source, "ICON_ORIGIN") {
        Ok(v) => v,
        Err(d) => {
            return Err(d);
        },
    };
    let body = match read_catalog_body(&chars_of(source)) {
        Ok(v) => v,
        Err(d) => {
            return Err(d);
        },
    };
    let found = match read_objects(&body) {
        Ok(v) => v,
        Err(d) => {
            return Err(d);
        },
    };
    let ghost ranges = catalog_objects(body@)->Ok_0;
    let mut out: Vec<ImportedTile> = Vec::new();
    let mut i: usize = 0;
    assert(ranges.take(0) =~= Seq::<(int, int)>::empty());
    assert(out@.map_values(|t: ImportedTile| t@) =~= Seq::<TileView>::empty());
    assert(suite_apps(source@) == tiles_of(body@, ranges, origin@));
    while i < found.len()
        invariant
            i <= found.len(),
            same_ranges(found@, ranges, body@.len() as int),
            suite_apps(source@) == tiles_of(body@, ranges, origin@),
            tiles_of(body@, ranges.take(i as int), origin@) == Ok::<Seq<TileView>, DiagnosticView>(
                out@.map_values(|t: ImportedTile| t@),
            ),
        decreases found.len() - i,
    {
        let (from, to) = found[i];
        proof {
            assert(found@[i as int].0 == ranges[i as int].0);
            assert(ranges.take(i + 1).drop_last() =~= ranges.take(i as int));
            assert(ranges.take(i + 1).last() == ranges[i as int]);
        }
        let object = text_of(&slice(&body, from, to));
        match read_tile(object.as_str(), origin.as_str()) {
            Ok(t) => {
                proof {
                    assert(out@.push(t).map_values(|t: ImportedTile| t@) =~= out@.map_values(
                        |t: ImportedTile| t@,
                    ).push(t@));
                }
                out.push(t);
            },
            Err(d) => {
                proof {
                    lemma_tiles_take(body@, ranges, origin@, i + 1);
                }
                return Err(d);
            },
        }
        i += 1;
    }
    assert(ranges.take(ranges.len() as int) =~= ranges);
    Ok(out)
}

/// What an AppDirectory source must contain, in the order in which it is asked.
pub open spec fn missing_marker(s: Seq<char>) -> Option<Seq<char>> {
    if !contains(s, "from '@bgch/waffle'"@) {
        Some("from '@bgch/waffle'"@)
    } else if !contains(s, "export function AppDirectory"@) {
        Some("export function AppDirectory"@)
    } else if !contains(s, "filterApps(apps"@) {
        Some("filterApps(apps"@)
    } else if !contains(s, "tiles.map"@) {
        Some("tiles.map"@)
    } else if !contains(s, "<AppTile"@) {
        Some("<AppTile"@)
    } else {
        None
    }
}

/// Why a source is no static AppDirectory page, if it is none. The branches that
/// a loaded catalog never shows are left out when attributes are looked at.
pub open spec fn source_error(s: Seq<char>) -> Option<DiagnosticView> {
    let rendered = encode_utf8(strip_empty_state(s));
    if contains(s, "className={"@) {
        Some(
            diagnosed(
                "JSX_UNSUPPORTED_EXPRESSION"@,
                "dynamic className expressions are not supported"@,
                "className={\u{2026}}"@,
            ),
        )
    } else {
        match first_foreign(rendered, source_attributes(rendered)) {
            Some(token) => Some(
                diagnosed(
                    "JSX_UNSUPPORTED_EXPRESSION"@,
                    "JSX attribute expressions are not supported by this static importer"@,
                    token,
                ),
            ),
            None => match missing_marker(s) {
                Some(marker) => Some(
                    diagnosed(
                        "SOURCE_UNSUPPORTED"@,
                        "source is outside the bounded AppDirectory static form"@,
                        marker,
                    ),
                ),
                None => None,
            },
        }
    }
}

fn first_missing_marker(all: &Vec<char>) -> (r: Option<&'static str>)
    ensures
        match r {
            Some(m) => missing_marker(all@) == Some(m@),
            None => missing_marker(all@) is None,
        },
{
    if !contains_str(all, "from '@bgch/waffle'") {
        Some("from '@bgch/waffle'")
    } else if !contains_str(all, "export function AppDirectory") {
        Some("export function AppDirectory")
    } else if !contains_str(all, "filterApps(apps") {
        Some("filterApps(apps")
    } else if !contains_str(all, "tiles.map") {
        Some("tiles.map")
    } else if !contains_str(all, "<AppTile") {
        Some("<AppTile")
    } else {
        None
    }
}

/// Whether `text` is a static AppDirectory page.
pub fn check_app_directory(text: &str) -> (r: Result<(), Diagnostic>)
    ensures
        match source_error(text@) {
            Some(e) => r matches Err(d) && d@ == e,
            None => r is Ok,
        },
{
    let all = chars_of(text);
    if contains_str(&all, "className={") {
        return Err(
            diag(
                "JSX_UNSUPPORTED_EXPRESSION",
                "dynamic className expressions are not supported",
                "className={\u{2026}}",
            ),
        );
    }
    let rendered = strip_unreachable_branches(text);
    if let Some(token) = unsupported_attribute_expression(rendered.as_str()) {
        return Err(
            diag(
                "JSX_UNSUPPORTED_EXPRESSION",
                "JSX attribute expressions are not supported by this static importer",
                token.as_str(),
            ),
        );
    }
    match first_missing_marker(&all) {
        Some(marker) => Err(
            diag(
                "SOURCE_UNSUPPORTED",
                "source is outside the bounded AppDirectory static form",
                marker,
            ),
        ),
        None => Ok(()),
    }
}


/// A tile has the name, the description and the address that its entry writes under these
/// words.
pub proof fn law_tile_is_as_written(object: Seq<char>, origin: Seq<char>)
    ensures
        tile_of(object, origin) matches Ok(t) ==> {
            &&& writes_field(object, "name"@, t.name)
            &&& writes_field(object, "description"@, t.description)
            &&& writes_field(object, "url"@, t.url)
            &&& icon_url(object, origin) == Ok::<Seq<char>, DiagnosticView>(t.icon)
        },
{
    law_fields_are_read_as_written(object, "name"@);
    law_fields_are_read_as_written(object, "description"@);
    law_fields_are_read_as_written(object, "url"@);
}

/// The tiles of a catalog are those of its entries, one for each, in their order.
pub proof fn law_tiles_follow_the_entries(
    body: Seq<char>,
    found: Seq<(int, int)>,
    origin: Seq<char>,
    i: int,
)
    requires
        0 <= i < found.len(),
    ensures
        tiles_of(body, found, origin) matches Ok(ts) ==> ts.len() == found.len() && tile_of(
            body.subrange(found[i].0, found[i].1),
            origin,
        ) == Ok::<TileView, DiagnosticView>(ts[i]),
    decreases found.len(),
{
    if tiles_of(body, found, origin) is Ok {
        let less = found.drop_last();
        if i < less.len() {
            law_tiles_follow_the_entries(body, less, origin, i);
            assert(less[i] == found[i]);
        } else if less.len() > 0 {
            law_tiles_follow_the_entries(body, less, origin, 0);
        } else {
            assert(tiles_of(body, less, origin) == Ok::<Seq<TileView>, DiagnosticView>(
                Seq::empty(),
            ));
        }
    }
}

} // verus!
