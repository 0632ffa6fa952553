use photonic_handlers::app_directory::parse_card_primitive;
use photonic_handlers::checkin::{css_color_value, css_hex_token, JsonFlag};
use photonic_handlers::diagnostic::Diagnostic;
use photonic_handlers::double::Double;
use photonic_handlers::jsx::{
    event_handlers, first_unsupported_rendered_expression, jsx_attribute_expressions,
    literal_jsx_text, scan_braced_expression, strip_jsx_comments_and_handlers,
};
use photonic_handlers::literals::{
    attr, icon_field, literal_binding, literal_class_containing, literal_field, object_string,
    primitive_classes, return_jsx, static_source_field, static_source_field_after,
    static_source_field_after_nth, static_source_identifier, string_after,
};
use photonic_handlers::paths::{bounded_file, check_asset_file, resolve_checkin_import};
use photonic_handlers::react_import::{check_directory_request, check_snapshot_props};
use photonic_handlers::sources::read_bounded_bytes;
use photonic_handlers::tailwind::{
    arbitrary_px, arbitrary_size, class_px, descendant_size_px, largest_space_class, radius_px,
    responsive_px_rules, tailwind, tailwind_space,
};
use photonic_handlers::theme::hsl_to_hex;

fn double(value: f64) -> Double {
    Double { bits: value.to_bits() }
}

fn value(d: Double) -> f64 {
    f64::from_bits(d.bits)
}

fn parts(path: &str) -> Vec<String> {
    path.split('/').filter(|c| !c.is_empty()).map(|c| c.to_string()).collect()
}

fn told<T>(r: Result<T, Diagnostic>) -> (String, String, String) {
    match r {
        Ok(_) => panic!("nothing was refused"),
        Err(d) => (d.code, d.message, d.value),
    }
}

fn said(code: &str, message: &str, about: &str) -> (String, String, String) {
    (code.into(), message.into(), about.into())
}

#[test]
fn literals_stand_in_either_quotes() {
    assert_eq!(string_after("x exit=  'Leave' y", "exit=").unwrap(), "Leave");
    assert_eq!(object_string("default: \"a b\"", "default:").unwrap(), "a b");
    assert_eq!(static_source_field("{ label: \"it's\" }", "label").unwrap(), "it's");
    assert_eq!(literal_binding("const A = '' const B = 'b'", "B").unwrap(), "b");
    assert_eq!(literal_binding("const A = ''", "A").unwrap(), "");
    assert_eq!(literal_field("name: 'ONE', url: 'u'", "url").unwrap(), "u");
    assert_eq!(
        told(string_after("x", "exit=")),
        said("SOURCE_UNSUPPORTED", "required literal is missing", "exit=")
    );
    assert_eq!(
        told(string_after("exit={x}", "exit=")),
        said("SOURCE_UNSUPPORTED", "required value must be a string literal", "exit=")
    );
    assert_eq!(
        told(string_after("exit='x\"", "exit=")),
        said("SOURCE_UNSUPPORTED", "string literal is unterminated", "exit=")
    );
    assert_eq!(
        told(object_string("default: x", "default:")),
        said("SOURCE_UNSUPPORTED", "variant must be a string literal", "default:")
    );
    assert_eq!(
        told(static_source_field("{ label: t }", "label")),
        said("SOURCE_DYNAMIC", "social link fields must be string literals", "label")
    );
    assert_eq!(
        told(static_source_field("{}", "label")),
        said("SOURCE_UNSUPPORTED", "literal social link field is missing", "label")
    );
    assert_eq!(
        told(literal_binding("const A = f()", "A")),
        said("CATALOG_DYNAMIC", "binding must be a string literal", "A")
    );
    assert_eq!(
        told(literal_field("name: 'x", "name")),
        said("CATALOG_UNSUPPORTED", "unterminated string literal", "name")
    );
}

#[test]
fn identifiers_and_icons_are_static() {
    assert_eq!(static_source_identifier("Icon:  Mail_2, x", "Icon").unwrap(), "Mail_2");
    assert_eq!(
        told(static_source_identifier("Icon: (x)", "Icon")),
        said("SOURCE_DYNAMIC", "social link icon must be a static identifier", "Icon")
    );
    assert_eq!(
        icon_field("icon: `${ICON_ORIGIN}//a-icon.svg`", "https://o.example//").unwrap(),
        "https://o.example/a-icon.svg"
    );
    assert_eq!(
        told(icon_field("icon: 'a'", "o")),
        said("CATALOG_DYNAMIC", "icon must use the bounded ICON_ORIGIN template", "icon")
    );
    assert_eq!(
        told(icon_field("icon: `${ICON_ORIGIN}/`", "o")),
        said("CATALOG_DYNAMIC", "icon template must have a literal suffix", "icon")
    );
    assert_eq!(attr("<p className = 'a b'>", "className").as_deref(), Some("a b"));
    assert_eq!(attr("<p className={x}>", "className"), None);
    assert_eq!(attr("<p>", "className"), None);
}

#[test]
fn page_texts_are_counted_and_unescaped() {
    let page = "<h2>One &amp; two</h2><p> <h2> It&apos;s </h2>";
    assert_eq!(static_source_field_after(page, "<h2>").unwrap(), "One & two");
    assert_eq!(static_source_field_after_nth(page, "<h2>", 1).unwrap(), "It's");
    assert_eq!(
        told(static_source_field_after_nth(page, "<h2>", 2)),
        said("SOURCE_UNSUPPORTED", "literal page text is missing", "<h2>")
    );
    assert_eq!(
        told(static_source_field_after("<h2>{t}</h2>", "<h2>")),
        said("SOURCE_DYNAMIC", "page text must be a non-empty literal", "{t}")
    );
    assert_eq!(
        told(static_source_field_after("<h2>open", "<h2>")),
        said("SOURCE_UNSUPPORTED", "literal page text is unterminated", "<h2>")
    );
    let source = "x export function ModeSelector() { return (<a/>); } y);";
    assert_eq!(return_jsx(source).unwrap(), "<a/>); } y");
    assert_eq!(
        told(return_jsx("function ModeSelector")),
        said("EXPORT_UNSUPPORTED", "ModeSelector export is missing", "ModeSelector")
    );
    assert_eq!(
        told(return_jsx("export function ModeSelector return (x")),
        said("SOURCE_UNSUPPORTED", "ModeSelector return is unterminated", ");")
    );
    assert_eq!(literal_jsx_text("<a> Hi\n there <b>x</b>{y}<i> </i>"), vec!["Hi there", "x"]);
}

#[test]
fn braces_are_matched_outside_of_quotes() {
    assert_eq!(scan_braced_expression("{a{b}c}", 0), Some(6));
    assert_eq!(scan_braced_expression("{'}'}", 0), Some(4));
    assert_eq!(scan_braced_expression("{`\\`}`}", 0), Some(6));
    assert_eq!(scan_braced_expression("{a", 0), None);
    assert_eq!(scan_braced_expression("}", 0), None);
    let source = "<a onClick={() => { f('}') }} b=\"c\">x</a><i d = { e }/><u g={h";
    let found: Vec<_> = jsx_attribute_expressions(source)
        .into_iter()
        .map(|e| (e.name, e.expression, source[e.start..e.end].to_string()))
        .collect();
    let entry = |n: &str, e: &str, s: &str| (n.to_string(), e.to_string(), s.to_string());
    assert_eq!(
        found,
        vec![
            entry("onClick", "() => { f('}') }", "onClick={() => { f('}') }}"),
            entry("d", "e", "d = { e }"),
            entry("g", "h", "g={h"),
        ]
    );
    assert_eq!(event_handlers(source), vec!["onClick={() => { f('}') }}"]);
    assert_eq!(
        strip_jsx_comments_and_handlers("<a {/* gone */} onClick={f} x={g}/>{/* open"),
        "<a   x={g}/>{/* open"
    );
    assert_eq!(first_unsupported_rendered_expression("a {false} b"), None);
    assert_eq!(
        first_unsupported_rendered_expression("a {false} {x} b").as_deref(),
        Some("{x}")
    );
    assert_eq!(first_unsupported_rendered_expression("a {open"), None);
}

#[test]
fn utility_classes_are_bounded_numbers() {
    assert_eq!(value(class_px("a p-6 p-8", "p-").unwrap()), 24.0);
    assert_eq!(value(class_px("h-0.5", "h-").unwrap()), 2.0);
    assert_eq!(
        told(class_px("p-97", "p-")),
        said("TAILWIND_UNSUPPORTED", "numeric spacing class is required", "p-")
    );
    assert_eq!(value(descendant_size_px("x [&_svg]:size-5").unwrap()), 20.0);
    assert_eq!(
        told(descendant_size_px("size-5")),
        said("TAILWIND_UNSUPPORTED", "descendant SVG size class is required", "[&_svg]:size-")
    );
    assert_eq!(value(tailwind_space("2.5").unwrap()), 10.0);
    assert_eq!(
        told(tailwind_space("x")).1,
        "gap must be a bounded numeric Tailwind spacing token"
    );
    assert_eq!(radius_px("rounded-2xl rounded-lg").unwrap(), 8);
    assert_eq!(
        told(radius_px("rounded")),
        said("TAILWIND_UNSUPPORTED", "bounded card radius is required", "rounded")
    );
    let rules = responsive_px_rules("lg:px-10 sm:px-4 md:p-3 xs:px-1 xl:px-x", double(8.0));
    let found: Vec<_> = rules.variants.iter().map(|(w, v)| (value(*w), value(*v))).collect();
    assert_eq!(found, vec![(640.0, 16.0), (1024.0, 40.0)]);
    assert_eq!(value(rules.resolve(double(639.0))), 8.0);
    assert_eq!(value(rules.resolve(double(1023.0))), 16.0);
    assert_eq!(value(rules.resolve(double(1024.0))), 40.0);
    assert_eq!(value(rules.resolve(double(f64::NAN))), 8.0);
    assert_eq!(value(largest_space_class("'mb-2' mb-6\"mb-4\"", "mb-").unwrap()), 24.0);
    assert_eq!(told(largest_space_class("", "mb-")).1, "required spacing class is missing");
    assert_eq!(value(arbitrary_px("x max-w-[720px] y", "max-w-[").unwrap()), 720.0);
    assert_eq!(
        told(arbitrary_px("max-w-[50%]", "max-w-[")),
        said("TAILWIND_UNSUPPORTED", "arbitrary size must use px", "max-w-[")
    );
    assert_eq!(arbitrary_size("w-[12.5px]").as_deref(), Some("width:12.5px"));
    assert_eq!(arbitrary_size("h-[1000001px]"), None);
    assert_eq!(arbitrary_size("h-[5em]"), None);
    assert_eq!(arbitrary_size("m-[5px]"), None);
    assert_eq!(
        tailwind("rounded h-[9px] opacity-50", false).unwrap(),
        "width:100%;height:40px;border-radius:4px;height:9px;opacity:0.5"
    );
    assert_eq!(tailwind("flex", true).unwrap_err()[0].value, "flex");
}

#[test]
fn class_lists_are_found_by_what_they_hold() {
    assert_eq!(literal_class_containing("x=\"a bg-white p-4\" y", "bg-white p-").unwrap(), "a bg-white p-4");
    assert_eq!(
        told(literal_class_containing("bg-white p-4", "bg-white p-")).1,
        "class list is malformed"
    );
    assert_eq!(
        told(literal_class_containing("'bg-white p-4", "bg-white p-")).1,
        "class list is unterminated"
    );
    let card = "const Card = x className={cn(\"rounded-lg border-2 bg-card text-card-foreground shadow\", y)}";
    assert_eq!(
        primitive_classes(card, "Card").unwrap(),
        "rounded-lg border-2 bg-card text-card-foreground shadow"
    );
    let (radius, border, classes) = parse_card_primitive(card).unwrap();
    assert_eq!((radius, border, classes.len()), (8, 2, 55));
    let plain = card.replace("border-2 ", "");
    assert_eq!(told(parse_card_primitive(&plain)).1, "Card requires a bounded border utility");
    let flat = card.replace("shadow", "flat");
    assert_eq!(
        told(parse_card_primitive(&flat)),
        said(
            "CARD_PRIMITIVE_UNSUPPORTED",
            "Card base classes are outside the bounded primitive",
            "shadow"
        )
    );
    assert_eq!(css_color_value(":root{--color-gold:  #FFAA00 ; }", "gold").unwrap(), "#FFAA00");
    assert_eq!(css_hex_token("#FFAA00", true).unwrap(), "#ffaa00");
    assert_eq!(
        told(css_hex_token("gold", false)),
        said("THEME_TOKEN_UNSUPPORTED", "color token must be literal hex", "gold")
    );
    assert_eq!(
        told(css_color_value("", "gold")),
        said("THEME_TOKEN_MISSING", "required color token is missing", "gold")
    );
}

fn native_hex(h: f64, s: f64, l: f64) -> String {
    let (s, l) = (s / 100.0, l / 100.0);
    let c = (1.0 - (2.0 * l - 1.0).abs()) * s;
    let h_prime = h.rem_euclid(360.0) / 60.0;
    let x = c * (1.0 - (h_prime.rem_euclid(2.0) - 1.0).abs());
    let (r, g, b) = match h_prime as u8 {
        0 => (c, x, 0.0),
        1 => (x, c, 0.0),
        2 => (0.0, c, x),
        3 => (0.0, x, c),
        4 => (x, 0.0, c),
        _ => (c, 0.0, x),
    };
    let m = l - c / 2.0;
    let byte = |v: f64| ((v + m) * 255.0).round() as u8;
    format!("#{:02x}{:02x}{:02x}", byte(r), byte(g), byte(b))
}

#[test]
fn hues_become_hex_colors() {
    assert_eq!(hsl_to_hex("0 0% 100%").as_deref(), Some("#ffffff"));
    assert_eq!(hsl_to_hex("220 13% 91%").as_deref(), Some("#e5e7eb"));
    for h in [-30.0, 0.0, 45.5, 60.0, 119.9, 180.0, 224.0, 299.0, 300.0, 359.99, 720.0] {
        for s in [0.0, 8.9, 50.0, 71.4, 100.0] {
            for l in [0.0, 4.1, 43.0, 50.0, 91.0, 100.0] {
                let text = format!("{h} {s}% {l}%");
                assert_eq!(hsl_to_hex(&text), Some(native_hex(h, s, l)), "{text}");
            }
        }
    }
    for bad in ["0 0 100%", "0 0%", "x 0% 0%", "0 101% 0%", "0 0% -1%", "inf 0% 0%", "0 0% 0% 0"] {
        assert_eq!(hsl_to_hex(bad), None, "{bad}");
    }
}

#[test]
fn files_are_found_below_their_roots() {
    let root = parts("/repo");
    let inside = Some(parts("/repo/a/b.css"));
    let outside = Some(parts("/other/b.css"));
    assert_eq!(bounded_file(&root, inside.clone(), "a/b.css", "T").unwrap(), parts("/repo/a/b.css"));
    assert_eq!(
        told(bounded_file(&root, None, "a/b.css", "T")),
        said("T_NOT_FOUND", "required allowlisted source file was not found", "a/b.css")
    );
    assert_eq!(
        told(bounded_file(&root, outside.clone(), "a/b.css", "T")),
        said("T_OUTSIDE_ROOT", "required source file resolves outside module_roots", "a/b.css")
    );
    assert!(resolve_checkin_import(&root, inside.clone(), "a/b.css").is_ok());
    assert_eq!(
        told(resolve_checkin_import(&root, None, "a/b.css")),
        said("IMPORT_UNRESOLVED", "required local import was not found", "a/b.css")
    );
    assert_eq!(
        told(resolve_checkin_import(&root, outside.clone(), "a/b.css")),
        said("IMPORT_OUTSIDE_ROOT", "resolved import is outside module_roots", "a/b.css")
    );
    let public = parts("/repo/a");
    assert!(check_asset_file(&public, &inside, "b.css", "/repo/a/b.css").is_ok());
    assert_eq!(told(check_asset_file(&public, &None, "b.css", "")).0, "ASSET_NOT_FOUND");
    let deeper = Some(parts("/repo/a/x/b.css"));
    assert_eq!(
        told(check_asset_file(&public, &deeper, "b.css", "/repo/a/x/b.css")),
        said(
            "ASSET_OUTSIDE_ROOT",
            "resolved SVG asset is outside the allowlisted asset root",
            "/repo/a/x/b.css"
        )
    );
    let read = |size, bytes| read_bounded_bytes("f", "CODE", 3, size, bytes);
    assert_eq!(read(Some(2), Some(vec![7, 8])).unwrap(), vec![7, 8]);
    assert_eq!(told(read(None, None)).1, "source file metadata is unavailable");
    assert_eq!(
        told(read(Some(4), Some(vec![]))),
        said("CODE_LIMIT", "source file exceeds the 3-byte parser limit", "f")
    );
    assert_eq!(told(read(Some(1), None)).1, "source file is not readable");
}

#[test]
fn a_directory_is_asked_for_in_one_way() {
    assert!(check_directory_request(Some("p"), Some("AppDirectory"), 1).is_ok());
    assert_eq!(told(check_directory_request(None, None, 0)).0, "SOURCE_PATH");
    assert_eq!(told(check_directory_request(Some("p"), Some("App"), 1)).2, "App");
    assert_eq!(
        told(check_directory_request(Some("p"), Some("AppDirectory"), 0)).1,
        "module_roots is required for file-backed import"
    );
    let props = |list: &[(&str, JsonFlag)]| {
        Some(list.iter().map(|(k, f)| (k.to_string(), *f)).collect::<Vec<_>>())
    };
    let good = [("isSuperAdmin", JsonFlag::True), ("loading", JsonFlag::False)];
    assert!(check_snapshot_props(&props(&good)).is_ok());
    assert_eq!(told(check_snapshot_props(&None)).0, "SNAPSHOT_PROPS");
    assert_eq!(told(check_snapshot_props(&props(&good[..1]))).0, "SNAPSHOT_PROPS");
    let more = [good[0], good[1], ("theme", JsonFlag::Null)];
    assert_eq!(told(check_snapshot_props(&props(&more))).2, "theme");
}

#[test]
fn joined_classes_have_joined_styles() {
    for root in [false, true] {
        let (a, b) = ("w-full rounded", "border opacity-50");
        let base = tailwind("", root).unwrap();
        let (x, y) = (tailwind(a, root).unwrap(), tailwind(b, root).unwrap());
        let joined = tailwind(&format!("{a}\n{b}"), root).unwrap();
        assert_eq!(joined, format!("{x}{}", y.strip_prefix(&base).unwrap()));
        assert_eq!(tailwind("nope more", root).unwrap_err()[0].value, "nope");
        assert_eq!(tailwind("border more", root).unwrap_err()[0].value, "more");
    }
}

#[test]
fn no_handler_is_left_in_a_stripped_source() {
    for source in [
        "<a onClick={f} onClick={g} href=\"x\" {/* c */} onClick={() => { h('}') }}>t</a>",
        "<b x={1}onClick={f}y={2}/>",
        "<c disabled onClick={f} {...rest}>",
        "<d onClick={never closed",
        "<f title=\"= onClick={f}\">",
        "<g title=\"x= onClick={f} {a}\">",
    ] {
        assert!(!event_handlers(source).is_empty(), "{source}");
        let bare = strip_jsx_comments_and_handlers(source);
        assert!(event_handlers(&bare).is_empty(), "{bare}");
    }
    // A handler with a second value leaves one behind.
    let odd = strip_jsx_comments_and_handlers("<e onClick onClick={f}={g}>");
    assert_eq!(event_handlers(&odd), vec!["onClick ={g}"]);
    let odd = strip_jsx_comments_and_handlers("<e title=\"onClick onClick={a}={b}\">");
    assert_eq!(event_handlers(&odd), vec!["onClick ={b}"]);
    // So does one in front of a value that then belongs to another name.
    let odd = strip_jsx_comments_and_handlers("<e x= onClick={f} {a > b} onClick={g} >");
    assert_eq!(event_handlers(&odd), vec!["onClick={g}"]);
}

#[test]
fn whole_turns_of_the_hue_leave_the_colour() {
    for h in [-720, -361, -360, -1, 0, 1, 59, 60, 200, 359, 360, 999] {
        for k in [-3, -1, 1, 2777] {
            let at = |degrees: i64| hsl_to_hex(&format!("{degrees} 40% 60%"));
            let here = at(h);
            assert_eq!(here, at(h + 360 * k), "{h} {k}");
            let text = here.unwrap();
            assert_eq!((text.len(), text.as_bytes()[0]), (7, b'#'));
            assert!(text[1..].bytes().all(|b| b.is_ascii_digit() || (b'a'..=b'f').contains(&b)));
        }
    }
}
