//! The static Check-In mode selector: its texts, its handlers, and the sizes and
//! colours of the layout, the buttons and the theme around it.
use crate::diagnostic::{diag, diagnosed, string_result, Diagnostic, DiagnosticView};
use crate::double::{denotes, in_bounds, is_quadruple, Double};
use crate::jsx::{
    event_handlers, first_unsupported, first_unsupported_rendered_expression, handler_texts,
    jsx_texts, literal_jsx_text, source_attributes, strip_comments, strip_handlers,
    strip_jsx_comments_and_handlers,
};
use crate::literals::{
    class_list_around, literal_class_containing, object_string, quoted_after, quoted_result,
    return_jsx, returned_jsx, string_after,
};
use crate::tailwind::{
    arbitrary_px, class_pieces, class_px, descendant_size_px, first_after_last, is_spacing_px,
    largest_space_class, largest_step, radius_px, radius_result, responsive_px_rules, rules_in_px,
    rules_up_to, step_of, ResponsivePx, MAX_SOURCE_PX, MAX_SPACING,
};
use crate::text::{
    after, before, chars_of, contains, contains_str, contains_word, cut_before, find, find_str,
    first_suffix, has_word, lemma_find_from, lemma_same_words, occurs_at, option_text, push_all,
    push_str, same_text, slice, split_words, starts_with, text_of, texts, trim, trim_start, trimmed,
    trimmed_start, word_suffix, words,
};
use vstd::prelude::*;
use vstd::string::*;
use vstd::utf8::*;

verus! {

/// A JSON value, as far as a page asks for it.
#[derive(Debug, Clone, Copy, PartialEq, Eq, Structural)]
pub enum JsonFlag {
    Null,
    False,
    True,
    Other,
}

/// The entries of a JSON object.
pub open spec fn entries(v: Seq<(String, JsonFlag)>) -> Seq<(Seq<char>, JsonFlag)> {
    v.map_values(|e: (String, JsonFlag)| (e.0@, e.1))
}

/// The value of `key`.
pub open spec fn lookup(es: Seq<(Seq<char>, JsonFlag)>, key: Seq<char>) -> Option<JsonFlag>
    decreases es.len(),
{
    if es.len() == 0 {
        None
    } else if es[0].0 == key {
        Some(es[0].1)
    } else {
        lookup(es.skip(1), key)
    }
}

/// The first key that is neither `a` nor `b`.
pub open spec fn first_other_key(
    es: Seq<(Seq<char>, JsonFlag)>,
    a: Seq<char>,
    b: Seq<char>,
) -> Option<Seq<char>>
    decreases es.len(),
{
    if es.len() == 0 {
        None
    } else if es[0].0 != a && es[0].0 != b {
        Some(es[0].0)
    } else {
        first_other_key(es.skip(1), a, b)
    }
}

pub fn find_flag(es: &Vec<(String, JsonFlag)>, key: &str) -> (r: Option<JsonFlag>)
    ensures
        r == lookup(entries(es@), key@),
{
    let ghost all = entries(es@);
    assert(all.skip(0) =~= all);
    let mut i: usize = 0;
    while i < es.len()
        invariant
            i <= es.len(),
            all == entries(es@),
            lookup(all, key@) == lookup(all.skip(i as int), key@),
        decreases es.len() - i,
    {
        assert(all.skip(i as int)[0] == (es@[i as int].0@, es@[i as int].1));
        assert(all.skip(i as int).skip(1) =~= all.skip(i + 1));
        if same_text(es[i].0.as_str(), key) {
            return Some(es[i].1);
        }
        i += 1;
    }
    None
}

pub fn find_other_key(es: &Vec<(String, JsonFlag)>, a: &str, b: &str) -> (r: Option<String>)
    ensures
        option_text(r) == first_other_key(entries(es@), a@, b@),
{
    let ghost all = entries(es@);
    assert(all.skip(0) =~= all);
    let mut i: usize = 0;
    while i < es.len()
        invariant
            i <= es.len(),
            all == entries(es@),
            first_other_key(all, a@, b@) == first_other_key(all.skip(i as int), a@, b@),
        decreases es.len() - i,
    {
        assert(all.skip(i as int)[0] == (es@[i as int].0@, es@[i as int].1));
        assert(all.skip(i as int).skip(1) =~= all.skip(i + 1));
        if !same_text(es[i].0.as_str(), a) && !same_text(es[i].0.as_str(), b) {
            return Some(es[i].0.clone());
        }
        i += 1;
    }
    None
}

/// What is wrong with the dynamic content that a caller gives: only a null
/// `backgroundImage` and a false `enableInactivity` are modelled.
pub open spec fn dynamic_error(es: Seq<(Seq<char>, JsonFlag)>) -> Option<DiagnosticView> {
    match first_other_key(es, "backgroundImage"@, "enableInactivity"@) {
        Some(key) => Some(
            diagnosed(
                "DYNAMIC_CONTENT_UNSUPPORTED"@,
                "dynamic_content contains a branch this bounded wrapper does not model"@,
                key,
            ),
        ),
        None => {
            let background = lookup(es, "backgroundImage"@);
            if (background is Some && background != Some(JsonFlag::Null)) || lookup(
                es,
                "enableInactivity"@,
            ) != Some(JsonFlag::False) {
                Some(
                    diagnosed(
                        "DYNAMIC_CONTENT_UNSUPPORTED"@,
                        "ModeSelector requires backgroundImage=null and enableInactivity=false"@,
                        "dynamic_content"@,
                    ),
                )
            } else {
                None
            }
        },
    }
}

/// The policy for event handlers: what the caller gives, or `reject`.
pub open spec fn policy_of(policy: Option<Seq<char>>) -> Seq<char> {
    match policy {
        Some(p) => p,
        None => "reject"@,
    }
}

/// What is wrong with the arguments of the import, before any file is read.
pub open spec fn argument_error(
    dynamic: Option<Seq<(Seq<char>, JsonFlag)>>,
    policy: Option<Seq<char>>,
    has_source: bool,
) -> Option<DiagnosticView> {
    let early = match dynamic {
        Some(es) => dynamic_error(es),
        None => None,
    };
    if early is Some {
        early
    } else if policy_of(policy) != "reject"@ && policy_of(policy) != "strip"@ {
        Some(
            diagnosed(
                "INTERACTION_POLICY"@,
                "interaction_policy must be reject or strip"@,
                policy_of(policy),
            ),
        )
    } else if !has_source {
        Some(diagnosed("SOURCE_PATH"@, "source_path is required"@, ""@))
    } else {
        None
    }
}

pub open spec fn option_entries(o: Option<Vec<(String, JsonFlag)>>) -> Option<
    Seq<(Seq<char>, JsonFlag)>,
> {
    match o {
        Some(v) => Some(entries(v@)),
        None => None,
    }
}

/// Whether the arguments of the import can be served. `dynamic_content` is given
/// where it is an object.
pub fn check_checkin_arguments(
    dynamic_content: &Option<Vec<(String, JsonFlag)>>,
    interaction_policy: &Option<String>,
    has_source: bool,
) -> (r: Result<(), Diagnostic>)
    ensures
        match argument_error(
            option_entries(*dynamic_content),
            option_text(*interaction_policy),
            has_source,
        ) {
            Some(e) => r matches Err(d) && d@ == e,
            None => r is Ok,
        },
{
    if let Some(es) = dynamic_content {
        if let Some(key) = find_other_key(es, "backgroundImage", "enableInactivity") {
            return Err(
                diag(
                    "DYNAMIC_CONTENT_UNSUPPORTED",
                    "dynamic_content contains a branch this bounded wrapper does not model",
                    key.as_str(),
                ),
            );
        }
        let background = find_flag(es, "backgroundImage");
        let inactivity = find_flag(es, "enableInactivity");
        let background_set = match background {
            Some(JsonFlag::Null) => false,
            Some(_) => true,
            None => false,
        };
        let inactive = match inactivity {
            Some(JsonFlag::False) => true,
            _ => false,
        };
        if background_set || !inactive {
            return Err(
                diag(
                    "DYNAMIC_CONTENT_UNSUPPORTED",
                    "ModeSelector requires backgroundImage=null and enableInactivity=false",
                    "dynamic_content",
                ),
            );
        }
    }
    let policy = match interaction_policy {
        Some(p) => p.clone(),
        None => "reject".to_owned(),
    };
    if !same_text(policy.as_str(), "reject") && !same_text(policy.as_str(), "strip") {
        return Err(
            diag(
                "INTERACTION_POLICY",
                "interaction_policy must be reject or strip",
                policy.as_str(),
            ),
        );
    }
    if !has_source {
        return Err(diag("SOURCE_PATH", "source_path is required", ""));
    }
    Ok(())
}

/// What a mode selector source must contain, in the order in which it is asked.
pub open spec fn missing_mode_marker(s: Seq<char>) -> Option<Seq<char>> {
    if !contains(s, "export function ModeSelector"@) {
        Some("export function ModeSelector"@)
    } else if !contains(s, "<KioskLayout enableInactivity={false}>"@) {
        Some("<KioskLayout enableInactivity={false}>"@)
    } else if !contains(s, "from '@/components/ui/button'"@) {
        Some("from '@/components/ui/button'"@)
    } else if !contains(s, "from '@/components/layout'"@) {
        Some("from '@/components/layout'"@)
    } else if !contains(s, "from 'lucide-react'"@) {
        Some("from 'lucide-react'"@)
    } else {
        None
    }
}

/// The handlers of a rendered tree, as they are written.
pub open spec fn rendered_handlers(rendered: Seq<char>) -> Seq<Seq<char>> {
    handler_texts(encode_utf8(rendered), source_attributes(encode_utf8(rendered)))
}

/// A rendered tree without comments and handlers.
pub open spec fn stripped_tree(rendered: Seq<char>) -> Seq<char> {
    strip_handlers(strip_comments(rendered))
}

/// What is wrong with the tree that a mode selector renders.
pub open spec fn rendered_error(rendered: Seq<char>, policy: Seq<char>) -> Option<DiagnosticView> {
    if contains(rendered, "{activeBackground"@) || contains(rendered, "{enableInactivity"@) {
        Some(
            diagnosed(
                "JSX_UNSUPPORTED_EXPRESSION"@,
                "ModeSelector contains an unsupported rendered expression"@,
                "{activeBackground"@,
            ),
        )
    } else if rendered_handlers(rendered).len() > 0 && policy != "strip"@ {
        Some(
            diagnosed(
                "JSX_INTERACTION_UNSUPPORTED"@,
                "rendered event handlers require interaction_policy=strip"@,
                rendered_handlers(rendered)[0],
            ),
        )
    } else {
        match first_unsupported(encode_utf8(stripped_tree(rendered)), 0) {
            Some(token) => Some(
                diagnosed(
                    "JSX_UNSUPPORTED_EXPRESSION"@,
                    "rendered expression is outside the bounded static snapshot"@,
                    token,
                ),
            ),
            None => if jsx_texts(stripped_tree(rendered)).len() == 0 {
                Some(
                    diagnosed(
                        "JSX_EMPTY"@,
                        "ModeSelector has no literal visible text"@,
                        "ModeSelector"@,
                    ),
                )
            } else {
                None
            },
        }
    }
}

/// What is wrong with a mode selector source.
pub open spec fn mode_error(s: Seq<char>, policy: Seq<char>) -> Option<DiagnosticView> {
    match missing_mode_marker(s) {
        Some(marker) => Some(
            diagnosed(
                "SOURCE_UNSUPPORTED"@,
                "source is outside the bounded ModeSelector form"@,
                marker,
            ),
        ),
        None => match returned_jsx(s) {
            Err(d) => Some(d),
            Ok(rendered) => rendered_error(rendered, policy),
        },
    }
}

/// The visible texts and the handlers of a mode selector.
#[derive(Debug)]
pub struct ModeContent {
    pub texts: Vec<String>,
    pub handlers: Vec<String>,
}

fn first_missing_mode_marker(all: &Vec<char>) -> (r: Option<&'static str>)
    ensures
        match r {
            Some(m) => missing_mode_marker(all@) == Some(m@),
            None => missing_mode_marker(all@) is None,
        },
{
    if !contains_str(all, "export function ModeSelector") {
        Some("export function ModeSelector")
    } else if !contains_str(all, "<KioskLayout enableInactivity={false}>") {
        Some("<KioskLayout enableInactivity={false}>")
    } else if !contains_str(all, "from '@/components/ui/button'") {
        Some("from '@/components/ui/button'")
    } else if !contains_str(all, "from '@/components/layout'") {
        Some("from '@/components/layout'")
    } else if !contains_str(all, "from 'lucide-react'") {
        Some("from 'lucide-react'")
    } else {
        None
    }
}

/// The content of a mode selector source, under a policy for its handlers.
pub fn read_mode_selector(source: &str, interaction_policy: &Option<String>) -> (r: Result<
    ModeContent,
    Diagnostic,
>)
    ensures
        match mode_error(source@, policy_of(option_text(*interaction_policy))) {
            Some(e) => r matches Err(d) && d@ == e,
            None => {
                let rendered = returned_jsx(source@)->Ok_0;
                r matches Ok(m) && texts(m.texts@) == jsx_texts(stripped_tree(rendered)) && texts(
                    m.handlers@,
                ) == rendered_handlers(rendered)
            },
        },
{
    let policy = match interaction_policy {
        Some(p) => p.clone(),
        None => "reject".to_owned(),
    };
    if let Some(marker) = first_missing_mode_marker(&chars_of(source)) {
        return Err(
            diag(
                "SOURCE_UNSUPPORTED",
                "source is outside the bounded ModeSelector form",
                marker,
            ),
        );
    }
    let rendered = match return_jsx(source) {
        Ok(v) => v,
        Err(d) => {
            return Err(d);
        },
    };
    let tree = chars_of(rendered);
    if contains_str(&tree, "{activeBackground") || contains_str(&tree, "{enableInactivity") {
        return Err(
            diag(
                "JSX_UNSUPPORTED_EXPRESSION",
                "ModeSelector contains an unsupported rendered expression",
                "{activeBackground",
            ),
        );
    }
    let handlers = event_handlers(rendered);
    assert(texts(handlers@).len() == handlers@.len());
    if handlers.len() > 0 && !same_text(policy.as_str(), "strip") {
        assert(texts(handlers@)[0] == handlers@[0]@);
        return Err(
            diag(
                "JSX_INTERACTION_UNSUPPORTED",
                "rendered event handlers require interaction_policy=strip",
                handlers[0].as_str(),
            ),
        );
    }
    let stripped = strip_jsx_comments_and_handlers(rendered);
    if let Some(token) = first_unsupported_rendered_expression(stripped.as_str()) {
        return Err(
            diag(
                "JSX_UNSUPPORTED_EXPRESSION",
                "rendered expression is outside the bounded static snapshot",
                token.as_str(),
            ),
        );
    }
    let visible = literal_jsx_text(stripped.as_str());
    assert(texts(visible@).len() == visible@.len());
    if visible.len() == 0 {
        return Err(
            diag("JSX_EMPTY", "ModeSelector has no literal visible text", "ModeSelector"),
        );
    }
    Ok(ModeContent { texts: visible, handlers })
}

/// The part of the kiosk layout that is visible without a background image and
/// without the inactivity monitor.
pub open spec fn visible_layout(s: Seq<char>) -> Seq<char> {
    let exit = match after(s, "{/* Exit button */}"@) {
        Some(rest) => before(rest, "{/* Exit button */}"@),
        None => Seq::empty(),
    };
    before(s, "{/* Background layer 2"@) + before(exit, "{/* Inactivity monitor */}"@)
}

/// What is wrong with the layout's modules.
pub open spec fn layout_error(index: Seq<char>, layout: Seq<char>) -> Option<DiagnosticView> {
    match index_error(index) {
        Some(d) => Some(d),
        None => if !contains(layout, "{activeBackground && ("@) || !contains(
            layout,
            "{enableInactivity && ("@,
        ) || !contains(layout, "{children}"@) {
            Some(
                diagnosed(
                    "KIOSK_LAYOUT_UNSUPPORTED"@,
                    "KioskLayout branch structure changed"@,
                    "KioskLayout"@,
                ),
            )
        } else if !has_word(jsx_texts(stripped_tree(visible_layout(layout))), "Exit Kiosk"@) {
            Some(
                diagnosed(
                    "KIOSK_LAYOUT_UNSUPPORTED"@,
                    "visible exit label is missing"@,
                    "Exit Kiosk"@,
                ),
            )
        } else {
            None
        },
    }
}

pub open spec fn index_error(index: Seq<char>) -> Option<DiagnosticView> {
    if !contains(index, "export { KioskLayout } from './KioskLayout'"@) {
        Some(
            diagnosed(
                "IMPORT_UNRESOLVED"@,
                "KioskLayout re-export is unsupported"@,
                "KioskLayout"@,
            ),
        )
    } else {
        None
    }
}

/// Whether the layout index re-exports the layout.
pub fn check_layout_index(index: &str) -> (r: Result<(), Diagnostic>)
    ensures
        match index_error(index@) {
            Some(e) => r matches Err(d) && d@ == e,
            None => r is Ok,
        },
{
    if !contains_str(&chars_of(index), "export { KioskLayout } from './KioskLayout'") {
        return Err(
            diag("IMPORT_UNRESOLVED", "KioskLayout re-export is unsupported", "KioskLayout"),
        );
    }
    Ok(())
}

fn read_visible_layout(all: &Vec<char>) -> (r: Vec<char>)
    ensures
        r@ == visible_layout(all@),
{
    proof {
        reveal_strlit("{/* Exit button */}");
    }
    let mut out = cut_before(all, "{/* Background layer 2");
    let exit = match find_str(all, "{/* Exit button */}") {
        Some(at) => {
            let rest = slice(all, at + 19, all.len());
            assert(rest@ =~= all@.skip(at + 19));
            cut_before(&rest, "{/* Exit button */}")
        },
        None => Vec::new(),
    };
    let shown = cut_before(&exit, "{/* Inactivity monitor */}");
    push_all(&mut out, &shown);
    out
}

/// The exit label of the kiosk layout.
pub fn read_exit_text(index: &str, layout: &str) -> (r: Result<String, Diagnostic>)
    ensures
        match layout_error(index@, layout@) {
            Some(e) => r matches Err(d) && d@ == e,
            None => r matches Ok(t) && t@ == "Exit Kiosk"@,
        },
{
    match check_layout_index(index) {
        Ok(()) => {},
        Err(d) => {
            return Err(d);
        },
    }
    let all = chars_of(layout);
    if !contains_str(&all, "{activeBackground && (") || !contains_str(
        &all,
        "{enableInactivity && (",
    ) || !contains_str(&all, "{children}") {
        return Err(
            diag("KIOSK_LAYOUT_UNSUPPORTED", "KioskLayout branch structure changed", "KioskLayout"),
        );
    }
    let visible = text_of(&read_visible_layout(&all));
    let stripped = strip_jsx_comments_and_handlers(visible.as_str());
    let shown = literal_jsx_text(stripped.as_str());
    let ghost ts = jsx_texts(stripped_tree(visible_layout(layout@)));
    let mut i: usize = 0;
    while i < shown.len()
        invariant
            i <= shown.len(),
            texts(shown@) == ts,
            forall|k: int| 0 <= k < i ==> #[trigger] ts[k] != "Exit Kiosk"@,
            layout_error(index@, layout@) == (if has_word(ts, "Exit Kiosk"@) {
                None::<DiagnosticView>
            } else {
                Some(
                    diagnosed(
                        "KIOSK_LAYOUT_UNSUPPORTED"@,
                        "visible exit label is missing"@,
                        "Exit Kiosk"@,
                    ),
                )
            }),
        decreases shown.len() - i,
    {
        assert(ts[i as int] == shown@[i as int]@);
        if same_text(shown[i].as_str(), "Exit Kiosk") {
            return Ok(shown[i].clone());
        }
        i += 1;
    }
    assert(texts(shown@).len() == shown@.len());
    Err(diag("KIOSK_LAYOUT_UNSUPPORTED", "visible exit label is missing", "Exit Kiosk"))
}

/// Why a spacing step cannot be read, if it cannot.
pub open spec fn spacing_error(n: Option<Seq<char>>, error: DiagnosticView) -> Option<
    DiagnosticView,
> {
    match n {
        Some(t) if in_bounds(t, (Double { bits: 0 }), (Double { bits: MAX_SPACING })) => None,
        _ => Some(error),
    }
}

/// The error of `class_px`.
pub open spec fn class_px_error(classes: Seq<char>, prefix: Seq<char>) -> Option<DiagnosticView> {
    spacing_error(
        first_suffix(words(classes), prefix),
        diagnosed("TAILWIND_UNSUPPORTED"@, "numeric spacing class is required"@, prefix),
    )
}

/// Some class writes a spacing step behind `prefix`.
pub open spec fn has_step(ws: Seq<Seq<char>>, prefix: Seq<char>) -> bool {
    exists|i: int, x: Double|
        #![trigger step_of(ws[i], prefix, x)]
        0 <= i < ws.len() && step_of(ws[i], prefix, x)
}

/// The error of `largest_space_class`.
pub open spec fn largest_error(source: Seq<char>, prefix: Seq<char>) -> Option<DiagnosticView> {
    if has_step(class_pieces(source), prefix) {
        None
    } else {
        Some(diagnosed("TAILWIND_UNSUPPORTED"@, "required spacing class is missing"@, prefix))
    }
}

/// The error of `arbitrary_px`.
pub open spec fn arbitrary_error(source: Seq<char>, marker: Seq<char>) -> Option<DiagnosticView> {
    match after(source, marker) {
        None => Some(
            diagnosed("TAILWIND_UNSUPPORTED"@, "arbitrary pixel class is missing"@, marker),
        ),
        Some(rest) => if in_bounds(
            before(rest, "px]"@),
            (Double { bits: 0 }),
            (Double { bits: MAX_SOURCE_PX }),
        ) {
            None
        } else {
            Some(diagnosed("TAILWIND_UNSUPPORTED"@, "arbitrary size must use px"@, marker))
        },
    }
}

/// `y` is the largest spacing behind `prefix`.
pub open spec fn is_largest_px(source: Seq<char>, prefix: Seq<char>, y: Double) -> bool {
    exists|x: Double| #[trigger] largest_step(class_pieces(source), prefix, x) && is_quadruple(x, y)
}

/// The string literals of the button primitive: base, default and large classes.
pub open spec fn button_literal(s: Seq<char>, which: int) -> Result<Seq<char>, DiagnosticView> {
    if which == 0 {
        let marker = "const buttonVariants = cva("@;
        quoted_result(
            quoted_after(s, marker),
            diagnosed("SOURCE_UNSUPPORTED"@, "required literal is missing"@, marker),
            diagnosed("SOURCE_UNSUPPORTED"@, "required value must be a string literal"@, marker),
            diagnosed("SOURCE_UNSUPPORTED"@, "string literal is unterminated"@, marker),
        )
    } else {
        let marker = if which == 1 {
            "default:"@
        } else {
            "lg:"@
        };
        quoted_result(
            quoted_after(s, marker),
            diagnosed("SOURCE_UNSUPPORTED"@, "variant literal is missing"@, marker),
            diagnosed("SOURCE_UNSUPPORTED"@, "variant must be a string literal"@, marker),
            diagnosed("SOURCE_UNSUPPORTED"@, "variant literal is unterminated"@, marker),
        )
    }
}

pub open spec fn missing_button_class(class: Seq<char>) -> DiagnosticView {
    diagnosed("BUTTON_PRIMITIVE_UNSUPPORTED"@, "button base class is missing"@, class)
}

/// What is wrong with the button primitive, given the classes around icons.
pub open spec fn button_error(s: Seq<char>, icons: Seq<char>) -> Option<DiagnosticView> {
    match button_literal(s, 0) {
        Err(d) => Some(d),
        Ok(base) => if !has_word(words(base), "inline-flex"@) {
            Some(missing_button_class("inline-flex"@))
        } else if !has_word(words(base), "rounded-lg"@) {
            Some(missing_button_class("rounded-lg"@))
        } else {
            match button_literal(s, 1) {
                Err(d) => Some(d),
                Ok(standard) => match button_literal(s, 2) {
                    Err(d) => Some(d),
                    Ok(large) => if first_suffix(words(standard), "bg-"@) is None {
                        Some(
                            diagnosed(
                                "BUTTON_PRIMITIVE_UNSUPPORTED"@,
                                "default button background is missing"@,
                                "default"@,
                            ),
                        )
                    } else if class_px_error(large, "h-"@) is Some {
                        class_px_error(large, "h-"@)
                    } else if class_px_error(large, "px-"@) is Some {
                        class_px_error(large, "px-"@)
                    } else if class_px_error(base, "gap-"@) is Some {
                        class_px_error(base, "gap-"@)
                    } else {
                        match spacing_error(
                            first_after_last(words(base), ":size-"@),
                            diagnosed(
                                "TAILWIND_UNSUPPORTED"@,
                                "descendant SVG size class is required"@,
                                "[&_svg]:size-"@,
                            ),
                        ) {
                            Some(d) => Some(d),
                            None => largest_error(icons, "mr-"@),
                        }
                    },
                },
            }
        },
    }
}

/// The sizes of the buttons, and the name of their background token.
#[derive(Debug)]
pub struct ButtonMetrics {
    pub primary_token: String,
    pub height: Double,
    pub horizontal_padding: Double,
    pub gap: Double,
    pub icon_size: Double,
    pub icon_margin_right: Double,
}

/// The sizes that a correct button primitive gives.
pub open spec fn button_sizes(s: Seq<char>, icons: Seq<char>, m: ButtonMetrics) -> bool {
    let base = button_literal(s, 0)->Ok_0;
    let standard = button_literal(s, 1)->Ok_0;
    let large = button_literal(s, 2)->Ok_0;
    &&& first_suffix(words(standard), "bg-"@) == Some(m.primary_token@)
    &&& is_spacing_px(first_suffix(words(large), "h-"@)->0, m.height)
    &&& is_spacing_px(first_suffix(words(large), "px-"@)->0, m.horizontal_padding)
    &&& is_spacing_px(first_suffix(words(base), "gap-"@)->0, m.gap)
    &&& is_spacing_px(first_after_last(words(base), ":size-"@)->0, m.icon_size)
    &&& is_largest_px(icons, "mr-"@, m.icon_margin_right)
}

proof fn lemma_has_step(ws: Seq<Seq<char>>, prefix: Seq<char>, x: Double)
    requires
        largest_step(ws, prefix, x),
    ensures
        has_step(ws, prefix),
{
    let i = choose|i: int| 0 <= i < ws.len() && step_of(#[trigger] ws[i], prefix, x);
    assert(step_of(ws[i], prefix, x));
}

/// The largest spacing, with its error.
fn largest_px(source: &str, prefix: &str) -> (r: Result<Double, Diagnostic>)
    ensures
        match r {
            Ok(y) => largest_error(source@, prefix@) is None && is_largest_px(
                source@,
                prefix@,
                y,
            ),
            Err(d) => largest_error(source@, prefix@) == Some(d@),
        },
{
    let r = largest_space_class(source, prefix);
    proof {
        match r {
            Ok(y) => {
                let x = choose|x: Double|
                    #[trigger] largest_step(class_pieces(source@), prefix@, x) && is_quadruple(
                        x,
                        y,
                    );
                lemma_has_step(class_pieces(source@), prefix@, x);
            },
            Err(_) => {},
        }
    }
    r
}

/// The sizes of the buttons, from the button primitive and the pages with icons.
pub fn read_button(button: &str, mode: &str, layout: &str) -> (r: Result<
    ButtonMetrics,
    Diagnostic,
>)
    ensures
        match button_error(button@, mode@ + "\n"@ + layout@) {
            Some(e) => r matches Err(d) && d@ == e,
            None => r matches Ok(m) && button_sizes(button@, mode@ + "\n"@ + layout@, m),
        },
{
    let base = match string_after(button, "const buttonVariants = cva(") {
        Ok(v) => v,
        Err(d) => {
            return Err(d);
        },
    };
    let base_list = chars_of(base);
    if !contains_word(&base_list, "inline-flex") {
        return Err(
            diag("BUTTON_PRIMITIVE_UNSUPPORTED", "button base class is missing", "inline-flex"),
        );
    }
    if !contains_word(&base_list, "rounded-lg") {
        return Err(
            diag("BUTTON_PRIMITIVE_UNSUPPORTED", "button base class is missing", "rounded-lg"),
        );
    }
    let standard = match object_string(button, "default:") {
        Ok(v) => v,
        Err(d) => {
            return Err(d);
        },
    };
    let large = match object_string(button, "lg:") {
        Ok(v) => v,
        Err(d) => {
            return Err(d);
        },
    };
    let standard_words = split_words(&chars_of(standard));
    proof {
        lemma_same_words(standard_words@, words(standard@));
    }
    let primary_token = match word_suffix(&standard_words, "bg-") {
        Some(t) => text_of(&t),
        None => {
            return Err(
                diag(
                    "BUTTON_PRIMITIVE_UNSUPPORTED",
                    "default button background is missing",
                    "default",
                ),
            );
        },
    };
    let height = match class_px(large, "h-") {
        Ok(v) => v,
        Err(d) => {
            return Err(d);
        },
    };
    let horizontal_padding = match class_px(large, "px-") {
        Ok(v) => v,
        Err(d) => {
            return Err(d);
        },
    };
    let gap = match class_px(base, "gap-") {
        Ok(v) => v,
        Err(d) => {
            return Err(d);
        },
    };
    let icon_size = match descendant_size_px(base) {
        Ok(v) => v,
        Err(d) => {
            return Err(d);
        },
    };
    let mut icons = chars_of(mode);
    push_str(&mut icons, "\n");
    push_str(&mut icons, layout);
    let icon_text = text_of(&icons);
    let icon_margin_right = match largest_px(icon_text.as_str(), "mr-") {
        Ok(v) => v,
        Err(d) => {
            return Err(d);
        },
    };
    Ok(
        ButtonMetrics {
            primary_token,
            height,
            horizontal_padding,
            gap,
            icon_size,
            icon_margin_right,
        },
    )
}

/// What is wrong with the sizes of the layout.
pub open spec fn metrics_error(layout: Seq<char>, mode: Seq<char>) -> Option<DiagnosticView> {
    if arbitrary_error(layout, "max-w-["@) is Some {
        arbitrary_error(layout, "max-w-["@)
    } else {
        match class_list_around(layout, "bg-white p-"@) {
            Err(d) => Some(d),
            Ok(card) => if class_px_error(card, "p-"@) is Some {
                class_px_error(card, "p-"@)
            } else {
                match class_list_around(layout, "justify-center p-"@) {
                    Err(d) => Some(d),
                    Ok(outer) => if class_px_error(outer, "p-"@) is Some {
                        class_px_error(outer, "p-"@)
                    } else {
                        match radius_result(card) {
                            Err(d) => Some(d),
                            Ok(_) => if arbitrary_error(layout, "border-t-["@) is Some {
                                arbitrary_error(layout, "border-t-["@)
                            } else {
                                largest_error(mode, "mb-"@)
                            },
                        }
                    },
                }
            },
        }
    }
}

/// The sizes of the kiosk's card and page.
#[derive(Debug)]
pub struct LayoutMetrics {
    pub card_width: Double,
    pub card_padding: ResponsivePx,
    pub outer_padding: Double,
    pub card_radius: u32,
    pub card_top_border_width: Double,
    pub section_gap: Double,
}

/// The sizes that a correct layout gives.
pub open spec fn layout_sizes(layout: Seq<char>, mode: Seq<char>, m: LayoutMetrics) -> bool {
    let card = class_list_around(layout, "bg-white p-"@)->Ok_0;
    let outer = class_list_around(layout, "justify-center p-"@)->Ok_0;
    &&& denotes(before(after(layout, "max-w-["@)->0, "px]"@), m.card_width)
    &&& is_spacing_px(first_suffix(words(card), "p-"@)->0, m.card_padding.base)
    &&& rules_in_px(m.card_padding.variants@, rules_up_to(words(card), 5))
    &&& is_spacing_px(first_suffix(words(outer), "p-"@)->0, m.outer_padding)
    &&& radius_result(card) == Ok::<u32, DiagnosticView>(m.card_radius)
    &&& denotes(before(after(layout, "border-t-["@)->0, "px]"@), m.card_top_border_width)
    &&& is_largest_px(mode, "mb-"@, m.section_gap)
}

/// The sizes of the kiosk's card and page.
pub fn read_layout_metrics(layout: &str, mode: &str) -> (r: Result<LayoutMetrics, Diagnostic>)
    ensures
        match metrics_error(layout@, mode@) {
            Some(e) => r matches Err(d) && d@ == e,
            None => r matches Ok(m) && layout_sizes(layout@, mode@, m),
        },
{
    let card_width = match arbitrary_px(layout, "max-w-[") {
        Ok(v) => v,
        Err(d) => {
            return Err(d);
        },
    };
    let card = match literal_class_containing(layout, "bg-white p-") {
        Ok(v) => v,
        Err(d) => {
            return Err(d);
        },
    };
    let base = match class_px(card, "p-") {
        Ok(v) => v,
        Err(d) => {
            return Err(d);
        },
    };
    let card_padding = responsive_px_rules(card, base);
    let outer = match literal_class_containing(layout, "justify-center p-") {
        Ok(v) => v,
        Err(d) => {
            return Err(d);
        },
    };
    let outer_padding = match class_px(outer, "p-") {
        Ok(v) => v,
        Err(d) => {
            return Err(d);
        },
    };
    let card_radius = match radius_px(card) {
        Ok(v) => v,
        Err(d) => {
            return Err(d);
        },
    };
    let card_top_border_width = match arbitrary_px(layout, "border-t-[") {
        Ok(v) => v,
        Err(d) => {
            return Err(d);
        },
    };
    let section_gap = match largest_px(mode, "mb-") {
        Ok(v) => v,
        Err(d) => {
            return Err(d);
        },
    };
    Ok(
        LayoutMetrics {
            card_width,
            card_padding,
            outer_padding,
            card_radius,
            card_top_border_width,
            section_gap,
        },
    )
}

/// The value of the colour token `name` in a style sheet.
pub open spec fn color_value(css: Seq<char>, name: Seq<char>) -> Result<Seq<char>, DiagnosticView> {
    match after(css, "--color-"@ + name + ":"@) {
        None => Err(
            diagnosed("THEME_TOKEN_MISSING"@, "required color token is missing"@, name),
        ),
        Some(rest) => Ok(trim(before(trim_start(rest), ";"@))),
    }
}

pub fn css_color_value(source: &str, name: &str) -> (r: Result<String, Diagnostic>)
    ensures
        string_result(r) == color_value(source@, name@),
{
    let all = chars_of(source);
    let mut marker = chars_of("--color-");
    push_str(&mut marker, name);
    push_str(&mut marker, ":");
    let width: usize = marker.len();
    let marker_text = text_of(&marker);
    match find_str(&all, marker_text.as_str()) {
        None => Err(diag("THEME_TOKEN_MISSING", "required color token is missing", name)),
        Some(at) => {
            let rest = slice(&all, at + width, all.len());
            assert(rest@ =~= all@.skip(at + width));
            let value = trimmed(&cut_before(&trimmed_start(&rest), ";"));
            Ok(text_of(&value))
        },
    }
}

/// A character in lower case, where it is an ASCII letter.
pub open spec fn ascii_lower(c: char) -> char {
    if 'A' <= c <= 'Z' {
        (c as u32 + 32) as char
    } else {
        c
    }
}

/// What a colour token gives: a hex colour in lower case. `is_hex` says whether
/// `value` is one.
pub open spec fn hex_token(value: Seq<char>, is_hex: bool) -> Result<Seq<char>, DiagnosticView> {
    if is_hex {
        Ok(value.map_values(|c: char| ascii_lower(c)))
    } else {
        Err(
            diagnosed("THEME_TOKEN_UNSUPPORTED"@, "color token must be literal hex"@, value),
        )
    }
}

pub fn css_hex_token(value: &str, is_hex: bool) -> (r: Result<String, Diagnostic>)
    ensures
        string_result(r) == hex_token(value@, is_hex),
{
    if !is_hex {
        return Err(diag("THEME_TOKEN_UNSUPPORTED", "color token must be literal hex", value));
    }
    let v = chars_of(value);
    let mut out: Vec<char> = Vec::new();
    let mut i: usize = 0;
    while i < v.len()
        invariant
            i <= v.len(),
            out@ == v@.take(i as int).map_values(|c: char| ascii_lower(c)),
        decreases v.len() - i,
    {
        let c = v[i];
        let lower: char = if 'A' <= c && c <= 'Z' {
            (c as u8 + 32u8) as char
        } else {
            c
        };
        assert(v@.take(i + 1).map_values(|c: char| ascii_lower(c)) =~= v@.take(
            i as int,
        ).map_values(|c: char| ascii_lower(c)).push(lower));
        out.push(lower);
        i += 1;
    }
    assert(v@.take(v@.len() as int) =~= v@);
    Ok(text_of(&out))
}


/// The sizes of a button are those that the classes of its parts write, each under its own
/// name: its height and the padding beside its text where the large button is described, the
/// gap where all buttons are.
pub proof fn law_button_sizes_are_as_written(s: Seq<char>, icons: Seq<char>, m: ButtonMetrics)
    requires
        button_error(s, icons) is None,
        button_sizes(s, icons, m),
    ensures
        exists|n: Seq<char>|
            has_word(words(button_literal(s, 2)->Ok_0), #[trigger] ("h-"@ + n)) && is_spacing_px(
                n,
                m.height,
            ),
        exists|n: Seq<char>|
            has_word(words(button_literal(s, 2)->Ok_0), #[trigger] ("px-"@ + n)) && is_spacing_px(
                n,
                m.horizontal_padding,
            ),
        exists|n: Seq<char>|
            has_word(words(button_literal(s, 0)->Ok_0), #[trigger] ("gap-"@ + n)) && is_spacing_px(
                n,
                m.gap,
            ),
        has_word(words(button_literal(s, 1)->Ok_0), "bg-"@ + m.primary_token@),
{
    let base = words(button_literal(s, 0)->Ok_0);
    let standard = words(button_literal(s, 1)->Ok_0);
    let large = words(button_literal(s, 2)->Ok_0);
    lemma_first_suffix(large, "h-"@);
    lemma_first_suffix(large, "px-"@);
    lemma_first_suffix(base, "gap-"@);
    lemma_first_suffix(standard, "bg-"@);
}

/// The sizes of a layout are those that the classes of its card and of what is round it write.
pub proof fn law_layout_sizes_are_as_written(layout: Seq<char>, mode: Seq<char>, m: LayoutMetrics)
    requires
        metrics_error(layout, mode) is None,
        layout_sizes(layout, mode, m),
    ensures
        exists|n: Seq<char>|
            has_word(
                words(class_list_around(layout, "bg-white p-"@)->Ok_0),
                #[trigger] ("p-"@ + n),
            ) && is_spacing_px(n, m.card_padding.base),
        exists|n: Seq<char>|
            has_word(
                words(class_list_around(layout, "justify-center p-"@)->Ok_0),
                #[trigger] ("p-"@ + n),
            ) && is_spacing_px(n, m.outer_padding),
        exists|at: int, end: int|
            occurs_at(layout, "max-w-["@, at) && at + "max-w-["@.len() <= end
                <= layout.len() && denotes(
                #[trigger] layout.subrange(at + "max-w-["@.len(), end),
                m.card_width,
            ),
        exists|at: int, end: int|
            occurs_at(layout, "border-t-["@, at) && at + "border-t-["@.len() <= end
                <= layout.len() && denotes(
                #[trigger] layout.subrange(at + "border-t-["@.len(), end),
                m.card_top_border_width,
            ),
{
    lemma_first_suffix(words(class_list_around(layout, "bg-white p-"@)->Ok_0), "p-"@);
    lemma_first_suffix(words(class_list_around(layout, "justify-center p-"@)->Ok_0), "p-"@);
    lemma_written_px(layout, "max-w-["@, m.card_width);
    lemma_written_px(layout, "border-t-["@, m.card_top_border_width);
}

proof fn lemma_written_px(s: Seq<char>, marker: Seq<char>, x: Double)
    requires
        after(s, marker) is Some,
        denotes(before(after(s, marker)->0, "px]"@), x),
    ensures
        exists|at: int, end: int|
            occurs_at(s, marker, at) && at + marker.len() <= end <= s.len() && denotes(
                #[trigger] s.subrange(at + marker.len(), end),
                x,
            ),
{
    lemma_find_from(s, marker, 0);
    let at = find(s, marker)->0;
    let rest = s.skip(at + marker.len());
    lemma_find_from(rest, "px]"@, 0);
    let v = before(rest, "px]"@);
    let end = at + marker.len() + v.len();
    assert(s.subrange(at + marker.len(), end) =~= v);
}

proof fn lemma_first_suffix(ws: Seq<Seq<char>>, prefix: Seq<char>)
    ensures
        first_suffix(ws, prefix) matches Some(n) ==> has_word(ws, prefix + n),
    decreases ws.len(),
{
    if ws.len() > 0 {
        if starts_with(ws[0], prefix) {
            let n = ws[0].skip(prefix.len() as int);
            assert(ws[0].subrange(0, prefix.len() as int) == prefix);
            assert(ws[0] =~= prefix + n);
        } else {
            let rest = ws.skip(1);
            lemma_first_suffix(rest, prefix);
            if first_suffix(rest, prefix) is Some {
                let w = prefix + first_suffix(rest, prefix)->0;
                let i = choose|i: int| 0 <= i < rest.len() && #[trigger] rest[i] == w;
                assert(ws[i + 1] == w);
            }
        }
    }
}

} // verus!
