use photonic_handlers::checkin::JsonFlag;
use photonic_handlers::checkin_reader::{
    checkin_color_values, read_checkin_mode_selector, CheckinInput, CheckinPage,
};
use photonic_handlers::diagnostic::{diag, Diagnostic};
use photonic_handlers::directory_plan::layout_app_directory;
use photonic_handlers::double::Double;
use photonic_handlers::history::{import_commands, Document};
use photonic_handlers::page_readers::{
    connect_icon_names, read_app_directory, read_connect_page, read_directory_content,
    read_directory_snapshot, AssetFile, ConnectInput, DirectoryInput, FoundFile, ParsedPage,
    SourcePlace,
};
use photonic_handlers::plan::Destination;
use photonic_handlers::react_import::{
    create_vectors_from_react, page_kind, report_import, PageKind, PagePlan, ReactAction,
    ReactInput,
};
use photonic_handlers::sources::actual_span;
use photonic_handlers::svg::{svg_asset_basename, SvgDocument, SvgNode};

fn double(value: f64) -> Double {
    Double { bits: value.to_bits() }
}

fn value(d: Double) -> f64 {
    f64::from_bits(d.bits)
}

fn components(path: &str) -> Vec<String> {
    path.split('/').filter(|c| !c.is_empty()).map(|c| c.to_string()).collect()
}

fn file(path: &str, text: &str) -> FoundFile {
    FoundFile {
        path: Some(components(path)),
        shown: path.to_string(),
        size: Some(text.len() as u64),
        bytes: Some(text.as_bytes().to_vec()),
    }
}

fn missing() -> FoundFile {
    FoundFile { path: None, shown: String::new(), size: None, bytes: None }
}

const APP: &str = "import { SUITE_APPS, filterApps } from '@bgch/waffle';\nfunction AppTile(){return <CardContent className=\"flex items-center gap-4 p-5\"><img className=\"h-12 w-12 rounded-lg\"/><span className=\"font-semibold\"/><p className=\"text-sm\"/></CardContent>}\nexport function AppDirectory(){ const tiles = filterApps(apps); return <section><div className=\"grid grid-cols-1 gap-4 sm:grid-cols-2 lg:grid-cols-3\">{tiles.map((app) => (<AppTile key={app.id} app={app} />))}</div></section> }\n";

const CATALOG: &str = "const ICON_ORIGIN = 'https://people.bgcharlem.org';\nconst SUITE_APPS = [{ id: 'a', name: 'ONE', icon: `${ICON_ORIGIN}/one-icon.svg`, url: 'https://one.example', description: 'One' }, { id: 'b', name: 'TWO', icon: `${ICON_ORIGIN}/two-icon.svg`, url: 'https://two.example', description: 'Two' }];\n";

const CARD: &str = "const Card = React.forwardRef(() => <div className={cn(\"rounded-xl border bg-card text-card-foreground shadow\", className)} />)\nconst CardContent = React.forwardRef(() => <div className={cn(\"p-6 pt-0\", className)} />)\n";

const TOKENS: &str = ":root {\n --card: 0 0% 100%;\n --foreground: 224 71.4% 4.1%;\n --muted-foreground: 220 8.9% 43%;\n --border: 220 13% 91%;\n}\n.dark { --card: 0 0% 0%; }\n";

fn directory(app: &str, catalog: &str, card: &str, tokens: &str) -> DirectoryInput {
    DirectoryInput {
        export_name: Some("AppDirectory".into()),
        module_roots: 1,
        place: SourcePlace {
            source_path: Some("/repo/apps/hub/src/components/AppDirectory.jsx".into()),
            roots: Some(vec![components("/repo")]),
            source: file("/repo/apps/hub/src/components/AppDirectory.jsx", app),
        },
        catalog: file("/repo/packages/waffle/src/suiteApps.js", catalog),
        card: file("/repo/packages/ui/src/card.jsx", card),
        theme: file("/repo/packages/theme/tokens.css", tokens),
        asset_root: Some(components("/repo/apps/core/public")),
        asset_root_shown: "/repo/apps/core/public".into(),
    }
}

fn picture() -> SvgDocument {
    let one = double(1.0);
    let zero = double(0.0);
    SvgDocument {
        width: double(10.0),
        height: double(10.0),
        nodes: vec![SvgNode {
            id: 1,
            editable: true,
            group: false,
            children: vec![],
            matrix: [one, zero, zero, one, zero, zero],
        }],
        roots: vec![1],
    }
}

fn svg_file(name: &str) -> AssetFile {
    AssetFile {
        file: file(&format!("/repo/apps/core/public/{name}"), "<svg/>"),
        document: Ok(picture()),
    }
}

fn assets(input: &DirectoryInput, known: &[&str]) -> Vec<AssetFile> {
    let mut out = Vec::new();
    for tile in read_directory_content(input).unwrap().tiles {
        let name = svg_asset_basename(&tile.icon).unwrap();
        if known.contains(&name.as_str()) {
            out.push(svg_file(&name));
        } else {
            out.push(AssetFile { file: missing(), document: Err("absent".into()) });
        }
    }
    out
}

fn props() -> Option<Vec<(String, JsonFlag)>> {
    Some(vec![
        ("isSuperAdmin".into(), JsonFlag::True),
        ("loading".into(), JsonFlag::False),
    ])
}

fn parsed(input: &DirectoryInput) -> ParsedPage {
    read_directory_snapshot(input, &assets(input, &["one-icon.svg", "two-icon.svg"]), &props())
        .unwrap()
}

#[test]
fn copied_card_and_theme_sources_drive_style_and_fingerprint() {
    let baseline = parsed(&directory(APP, CATALOG, CARD, TOKENS));
    assert_eq!(baseline.content.tile_style.card_radius, 12);
    assert_eq!(baseline.content.tile_style.card_border_width, 1);
    assert_eq!(baseline.content.source_theme.card, "#ffffff");
    assert_eq!(baseline.content.source_theme.foreground, "#030712");
    assert_eq!(baseline.content.source_theme.muted, "#646a77");
    assert_eq!(baseline.content.source_theme.border, "#e5e7eb");
    assert!(baseline.resolved_files.iter().any(|p| p.ends_with("packages/ui/src/card.jsx")));
    assert!(baseline.resolved_files.iter().any(|p| p.ends_with("packages/theme/tokens.css")));

    let card = CARD.replace("rounded-xl border ", "rounded-lg border-2 ");
    let changed_card = parsed(&directory(APP, CATALOG, &card, TOKENS));
    assert_eq!(changed_card.content.tile_style.card_radius, 8);
    assert_eq!(changed_card.content.tile_style.card_border_width, 2);
    assert_ne!(baseline.fingerprint, changed_card.fingerprint);

    let tokens = TOKENS
        .replace("--card: 0 0% 100%", "--card: 210 50% 20%")
        .replace("--border: 220 13% 91%", "--border: 0 100% 50%");
    let changed_theme = parsed(&directory(APP, CATALOG, &card, &tokens));
    assert_eq!(changed_theme.content.source_theme.card, "#1a334d");
    assert_eq!(changed_theme.content.source_theme.border, "#ff0000");
    assert_ne!(changed_card.fingerprint, changed_theme.fingerprint);
}

#[test]
fn missing_or_outside_style_sources_reject_without_mutation() {
    let mut input = directory(APP, CATALOG, CARD, TOKENS);
    input.theme = missing();
    let d = read_app_directory(&input, &vec![]).unwrap_err();
    assert_eq!(d.code, "THEME_TOKENS_NOT_FOUND");
    assert_eq!(d.value, "packages/theme/tokens.css");

    let mut input = directory(APP, CATALOG, CARD, TOKENS);
    input.card = file("/elsewhere/card.jsx", "outside");
    let d = read_app_directory(&input, &vec![]).unwrap_err();
    assert_eq!(d.code, "CARD_PRIMITIVE_OUTSIDE_ROOT");
}

#[test]
fn copied_root_source_import_is_metamorphic_and_rejection_does_not_mutate() {
    let baseline = parsed(&directory(APP, CATALOG, CARD, TOKENS));
    assert_eq!(value(baseline.content.layout.gap), 16.0);
    assert_eq!(baseline.content.tiles[0].icon, "https://people.bgcharlem.org/one-icon.svg");
    let app = APP.replace("gap-4", "gap-8");
    assert_eq!(value(parsed(&directory(&app, CATALOG, CARD, TOKENS)).content.layout.gap), 32.0);
    let catalog = CATALOG.replace("/one-icon.svg", "/two-icon.svg");
    let icons = parsed(&directory(&app, &catalog, CARD, TOKENS));
    assert_eq!(icons.content.tiles[0].icon, "https://people.bgcharlem.org/two-icon.svg");
    assert!(!icons.resolved_files.iter().any(|p| p.ends_with("one-icon.svg")));
    let bad = app.replace("<section>", "<section onClick={recordClick}>");
    let d = read_app_directory(&directory(&bad, &catalog, CARD, TOKENS), &vec![]).unwrap_err();
    assert_eq!(d.code, "JSX_UNSUPPORTED_EXPRESSION");
}

#[test]
fn missing_local_svg_rejects_with_zero_mutation() {
    let catalog = CATALOG.replace("/one-icon.svg", "/missing-icon.svg");
    let input = directory(APP, &catalog, CARD, TOKENS);
    let found = assets(&input, &["one-icon.svg", "two-icon.svg"]);
    let d = read_app_directory(&input, &found).unwrap_err();
    assert_eq!(d.code, "ASSET_NOT_FOUND");
    assert_eq!(d.value, "missing-icon.svg");
    // An asset that nobody looked for counts as not found.
    let input = directory(APP, CATALOG, CARD, TOKENS);
    let d = read_app_directory(&input, &vec![svg_file("one-icon.svg")]).unwrap_err();
    assert_eq!((d.code.as_str(), d.value.as_str()), ("ASSET_NOT_FOUND", "two-icon.svg"));
}

#[test]
fn icons_outside_the_asset_root_or_unreadable_are_refused() {
    let input = directory(APP, CATALOG, CARD, TOKENS);
    let code = |a: AssetFile| read_app_directory(&input, &vec![a]).unwrap_err().code;
    let mut a = svg_file("one-icon.svg");
    a.file.path = Some(components("/repo/apps/core/public/deeper/one-icon.svg"));
    assert_eq!(code(a), "ASSET_OUTSIDE_ROOT");
    let mut a = svg_file("one-icon.svg");
    a.file.size = Some(524_289);
    assert_eq!(code(a), "ASSET_READ_LIMIT");
    let mut a = svg_file("one-icon.svg");
    a.file.bytes = Some(vec![0xff]);
    assert_eq!(code(a), "ASSET_READ");
    let mut a = svg_file("one-icon.svg");
    a.document = Err("no root".into());
    assert_eq!(code(a), "ASSET_SVG_INVALID");
    let mut a = svg_file("one-icon.svg");
    a.document = Ok(SvgDocument { width: double(0.0), ..picture() });
    assert_eq!(code(a), "ASSET_SVG_VIEWPORT");
    let mut input = directory(APP, CATALOG, CARD, TOKENS);
    input.asset_root = None;
    assert_eq!(read_app_directory(&input, &vec![]).unwrap_err().code, "ASSET_ROOT_NOT_FOUND");
    input.asset_root = Some(components("/public"));
    assert_eq!(read_app_directory(&input, &vec![]).unwrap_err().code, "ASSET_ROOT_OUTSIDE_ROOT");
}

#[test]
fn application_root_requires_a_static_component_branch_without_mutation() {
    let text = "import { useAuth } from './auth';\nexport function App() { const auth = useAuth(); return <main>{auth.user}</main>; }";
    let mut input = directory(text, CATALOG, CARD, TOKENS);
    input.export_name = Some("App".into());
    let d = read_app_directory(&input, &vec![]).unwrap_err();
    assert_eq!(d.code, "STATIC_BRANCH_REQUIRED");
    assert!(actual_span(text, &d.value).byte_end > 0);
}

#[test]
fn directory_requests_are_refused_in_order() {
    let mut input = directory(APP, CATALOG, CARD, TOKENS);
    input.place.source.bytes = None;
    assert_eq!(read_app_directory(&input, &vec![]).unwrap_err().code, "SOURCE_READ");
    input.place.roots = Some(vec![components("/other")]);
    assert_eq!(read_app_directory(&input, &vec![]).unwrap_err().code, "SOURCE_OUTSIDE_ROOT");
    input.place.source = missing();
    assert_eq!(read_app_directory(&input, &vec![]).unwrap_err().code, "SOURCE_NOT_FOUND");
    input.place.roots = None;
    assert_eq!(read_app_directory(&input, &vec![]).unwrap_err().code, "MODULE_ROOTS");
    input.module_roots = 0;
    assert_eq!(
        read_app_directory(&input, &vec![]).unwrap_err().message,
        "module_roots is required for file-backed import"
    );
    input.place.source_path = None;
    assert_eq!(read_app_directory(&input, &vec![]).unwrap_err().code, "SOURCE_PATH");
}

#[test]
fn props_are_looked_at_when_the_page_is_read() {
    let input = directory(APP, CATALOG, CARD, TOKENS);
    let found = assets(&input, &["one-icon.svg", "two-icon.svg"]);
    let code = |p: Option<Vec<(String, JsonFlag)>>| {
        read_directory_snapshot(&input, &found, &p).unwrap_err().code
    };
    assert_eq!(code(None), "SNAPSHOT_PROPS");
    assert_eq!(code(Some(vec![("isSuperAdmin".into(), JsonFlag::True)])), "SNAPSHOT_PROPS");
    assert_eq!(
        code(Some(vec![("theme".into(), JsonFlag::Null)])),
        "SNAPSHOT_PROPS_UNSUPPORTED"
    );
    let bad = directory("nothing", CATALOG, CARD, TOKENS);
    assert_eq!(read_directory_snapshot(&bad, &found, &None).unwrap_err().code, "SOURCE_UNSUPPORTED");
}

const MODE: &str = r#"import { Calendar, Users } from 'lucide-react';
import { Button } from '@/components/ui/button';
import { KioskLayout } from '@/components/layout';
export function ModeSelector() { return (
<KioskLayout enableInactivity={false}>
<h1 className="text-[1.8em] font-semibold mb-4 text-bgch-blue">Welcome!</h1>
<p className="text-[1.1em] mb-6 text-gray-700">Please select your check-in type</p>
<div className="mb-6"><h2 className="text-[1.5em] font-semibold mb-2 text-bgch-blue">Event Check-in</h2><p className="text-[1.1em] mb-4 text-gray-600">Checking in for a scheduled event</p><Button size="lg" className="w-full" onClick={() => event()}><Calendar className="mr-2 h-5 w-5" />Select Event</Button></div>
<div><h2 className="text-[1.5em] font-semibold mb-2 text-bgch-blue">General Visit</h2><p className="text-[1.1em] mb-4 text-gray-600">General visit or walk-in</p><Button size="lg" className="w-full" onClick={() => general()}><Users className="mr-2 h-5 w-5" />Continue</Button></div>
</KioskLayout> ); }"#;

const LAYOUT: &str = r#"export function KioskLayout({children,enableInactivity=true,backgroundImage}) { return <div className={cn('min-h-screen w-full relative overflow-hidden','flex items-center justify-center p-5 box-border')}><div style={{backgroundColor:'#005a9c'}} />{/* Background layer 2 - image */}{activeBackground && (<div />)}{/* Exit button */}<Button onClick={handleExit}><LogOut/>Exit Kiosk</Button><div className={cn('relative z-10 w-full max-w-[500px]','bg-white p-5 md:px-10 rounded-xl','border border-gray-200 border-t-[5px] border-t-bgch-gold')}>{children}</div>{/* Inactivity monitor */}{enableInactivity && (<InactivityMonitor />)}</div> }"#;

const BUTTON: &str = r#"const buttonVariants = cva("inline-flex items-center justify-center gap-2 rounded-lg [&_svg]:size-4", { variants:{variant:{default:"bg-primary-blue text-white"},size:{lg:"h-12 px-10 text-base"}}}); export { Button, buttonVariants }"#;

const CSS: &str = "@theme { --color-bgch-blue: #005a9c; --color-bgch-gold: #FDB813; --color-primary-blue: #007bff; }";

fn checkin(mode: &str, layout: &str, css: &str, policy: &str) -> CheckinInput {
    let source = "/repo/apps/checkin/src/features/mode-selection/components/ModeSelector.jsx";
    CheckinInput {
        dynamic_content: Some(vec![
            ("backgroundImage".into(), JsonFlag::Null),
            ("enableInactivity".into(), JsonFlag::False),
        ]),
        interaction_policy: Some(policy.into()),
        place: SourcePlace {
            source_path: Some(source.into()),
            roots: Some(vec![components("/repo")]),
            source: file(source, mode),
        },
        app_root: Some(components("/repo/apps/checkin/src")),
        layout_index: file(
            "/repo/apps/checkin/src/components/layout/index.js",
            "export { KioskLayout } from './KioskLayout';",
        ),
        layout: file("/repo/apps/checkin/src/components/layout/KioskLayout.jsx", layout),
        button: file("/repo/apps/checkin/src/components/ui/button.jsx", BUTTON),
        card: file("/repo/apps/checkin/src/components/ui/card.jsx", "export const Card = 'unused';"),
        css: file("/repo/apps/checkin/src/index.css", css),
    }
}

fn is_hex(s: &str) -> bool {
    s.len() == 7 && s.starts_with('#') && s[1..].chars().all(|c| c.is_ascii_hexdigit())
}

fn icons() -> Result<Vec<FoundFile>, Diagnostic> {
    Ok(["calendar", "users", "log-out"]
        .iter()
        .map(|slug| {
            file(&format!("/repo/node_modules/lucide-react/dist/esm/icons/{slug}.js"), "icon")
        })
        .collect())
}

fn read_checkin(input: &CheckinInput) -> Result<CheckinPage, Diagnostic> {
    let hex = match checkin_color_values(input) {
        Ok(values) => values.into_iter().filter(|v| is_hex(v)).collect(),
        Err(_) => vec![],
    };
    read_checkin_mode_selector(input, &hex, icons())
}

#[test]
fn checkin_copied_root_is_source_driven_across_content_layout_theme_and_events() {
    let baseline = read_checkin(&checkin(MODE, LAYOUT, CSS, "strip")).unwrap();
    assert_eq!(baseline.texts[0], "Exit Kiosk");
    assert_eq!(baseline.texts[1], "Welcome!");
    assert_eq!(value(baseline.layout.outer_padding), 20.0);
    assert_eq!(baseline.layout.card_radius, 12);
    assert_eq!(value(baseline.button.height), 48.0);
    assert_eq!(value(baseline.button.gap), 8.0);
    assert_eq!(value(baseline.button.icon_size), 16.0);
    assert_eq!(value(baseline.button.icon_margin_right), 8.0);
    assert_eq!(value(baseline.layout.card_top_border_width), 5.0);
    assert_eq!(baseline.blue, "#005a9c");
    assert_eq!(baseline.gold, "#fdb813");
    assert_eq!(baseline.primary_blue, "#007bff");
    assert!(baseline.interactions.len() >= 2);
    assert_eq!(baseline.warnings.len(), baseline.interactions.len());
    for (warning, handler) in baseline.warnings.iter().zip(&baseline.interactions) {
        assert_eq!(warning.code, "JSX_EVENT_STRIPPED");
        assert_eq!(
            warning.message,
            "event handler was removed; JavaScript was not executed"
        );
        assert_eq!(warning.value, *handler);
    }
    assert_eq!(baseline.source_files.len(), 9);
    let sorted = {
        let mut v = baseline.source_files.clone();
        v.sort();
        v.dedup();
        v
    };
    assert_eq!(baseline.source_files, sorted);

    let mode = MODE.replace("Welcome!", "Hello from fixture!").replace("mb-6", "mb-10");
    let layout = LAYOUT
        .replace("justify-center p-5", "justify-center p-10")
        .replace("rounded-xl", "rounded-2xl");
    let css = CSS.replace("#005a9c", "#123456");
    let changed = read_checkin(&checkin(&mode, &layout, &css, "strip")).unwrap();
    assert!(changed.texts.contains(&"Hello from fixture!".to_string()));
    assert_eq!(value(changed.layout.outer_padding), 40.0);
    assert_eq!(changed.layout.card_radius, 16);
    assert!(value(changed.layout.section_gap) > value(baseline.layout.section_gap));
    assert_eq!(changed.blue, "#123456");
    assert_ne!(changed.fingerprint, baseline.fingerprint);

    let rejected = read_checkin(&checkin(&mode, &layout, &css, "reject")).unwrap_err();
    assert_eq!(rejected.code, "JSX_INTERACTION_UNSUPPORTED");
}

#[test]
fn checkin_responsive_padding_follows_tailwind_breakpoints() {
    let page = read_checkin(&checkin(MODE, LAYOUT, CSS, "strip")).unwrap();
    assert_eq!(value(page.layout.card_padding.resolve(double(640.0))), 20.0);
    assert_eq!(value(page.layout.card_padding.resolve(double(768.0))), 40.0);
    assert_eq!(value(page.layout.card_padding.base), 20.0);
}

#[test]
fn checkin_unknown_rendered_expression_has_span_and_zero_mutation() {
    let mode =
        MODE.replace("<h1 className=", "<h1 data-fixture = {unknownValue} className=");
    let d = read_checkin(&checkin(&mode, LAYOUT, CSS, "strip")).unwrap_err();
    assert_eq!(d.code, "JSX_UNSUPPORTED_EXPRESSION");
    let span = actual_span(&mode, &d.value);
    assert!(span.byte_start > 0 && span.byte_end > span.byte_start);
    assert!(span.line_start > 1);
}

#[test]
fn checkin_sources_are_refused_one_after_the_other() {
    let code = |input: &CheckinInput| read_checkin(input).unwrap_err().code;
    let mut input = checkin(MODE, LAYOUT, "@theme {}", "strip");
    assert_eq!(code(&input), "THEME_TOKEN_MISSING");
    input.css = file("/repo/apps/checkin/src/index.css", &CSS.replace("#005a9c", "blue"));
    assert_eq!(code(&input), "THEME_TOKEN_UNSUPPORTED");
    input.css.bytes = None;
    assert_eq!(code(&input), "CSS_READ");
    input.button = file(
        "/repo/apps/checkin/src/components/ui/button.jsx",
        &BUTTON.replace("rounded-lg", ""),
    );
    assert_eq!(code(&input), "BUTTON_PRIMITIVE_UNSUPPORTED");
    input.layout = file(
        "/repo/apps/checkin/src/components/layout/KioskLayout.jsx",
        &LAYOUT.replace("Exit Kiosk", "Leave"),
    );
    assert_eq!(code(&input), "KIOSK_LAYOUT_UNSUPPORTED");
    input.layout_index = file("/repo/apps/checkin/src/components/layout/index.js", "");
    assert_eq!(code(&input), "IMPORT_UNRESOLVED");
    input.css = missing();
    assert_eq!(read_checkin(&input).unwrap_err().value, "apps/checkin/src/index.css");
    input.card = file("/outside/card.jsx", "");
    assert_eq!(code(&input), "IMPORT_OUTSIDE_ROOT");
    input.place.source = file(
        "/repo/apps/checkin/src/ModeSelector.jsx",
        "export function ModeSelector() {}",
    );
    assert_eq!(code(&input), "SOURCE_UNSUPPORTED");
    input.app_root = None;
    assert_eq!(code(&input), "CHECKIN_SOURCE_ROOT_NOT_FOUND");
    input.place.roots = Some(vec![]);
    assert_eq!(read_checkin(&input).unwrap_err().message, "module_roots is required");
    input.interaction_policy = Some("run".into());
    assert_eq!(code(&input), "INTERACTION_POLICY");
    input.dynamic_content = Some(vec![("enableInactivity".into(), JsonFlag::True)]);
    assert_eq!(code(&input), "DYNAMIC_CONTENT_UNSUPPORTED");
}

#[test]
fn a_missing_icon_set_and_an_unreadable_file_stop_the_checkin_page() {
    let input = checkin(MODE, LAYOUT, CSS, "strip");
    let hex = vec!["#005a9c".into(), "#FDB813".into(), "#007bff".into()];
    let d = read_checkin_mode_selector(&input, &hex, Err(diag("ICON", "no icon", "Users")));
    assert_eq!(d.unwrap_err().code, "ICON");
    let mut found = icons().unwrap();
    found[1].bytes = None;
    let d = read_checkin_mode_selector(&input, &hex, Ok(found)).unwrap_err();
    assert_eq!(d.code, "FINGERPRINT_READ");
    assert!(d.value.ends_with("users.js"));
}

const CONNECT: &str = "const socialLinks = [\n  { href: 'https://a.example', label: 'A', handle: '@a', Icon: Instagram },\n  { href: 'https://b.example', label: 'B', handle: '@b', Icon: Facebook },\n]\nexport function ConnectPage() { return <main><h1 className=\"mb-3 text-4xl font-bold tracking-tight\">Connect</h1><p className=\"text-muted-foreground\">Stay in touch</p><SlotImage /><h2 className=\"mb-1 text-lg font-semibold\">Stay in the Loop</h2><p className=\"mb-4 text-sm text-muted-foreground\">Newsletter</p><NewsletterSignupWidget /><h2 className=\"mb-1 text-lg font-semibold\">Follow along</h2><p className=\"mb-4 text-sm text-muted-foreground\">Social links</p></main> }";

fn connect(text: &str) -> ConnectInput {
    ConnectInput {
        module_roots: 1,
        place: SourcePlace {
            source_path: Some("/repo/ConnectPage.jsx".into()),
            roots: Some(vec![components("/repo")]),
            source: file("/repo/ConnectPage.jsx", text),
        },
        has_props: false,
    }
}

#[test]
fn a_connect_page_is_read_with_the_icons_it_names() {
    let input = connect(CONNECT);
    assert_eq!(connect_icon_names(&input).unwrap(), vec!["Instagram", "Facebook"]);
    let found = vec![file("/repo/i.js", "i"), file("/repo/f.js", "f")];
    let page = read_connect_page(&input, Ok(found)).unwrap();
    assert_eq!(page.texts.title, "Connect");
    assert_eq!(page.texts.follow_body, "Social links");
    assert_eq!(page.links[1].handle, "@b");
    assert_eq!(page.resolved_files, vec!["/repo/ConnectPage.jsx", "/repo/i.js", "/repo/f.js"]);
    assert_eq!(page.fingerprint.len(), 16);
    let other = read_connect_page(&input, Ok(vec![file("/repo/i.js", "i")])).unwrap();
    assert_ne!(page.fingerprint, other.fingerprint);
    let d = read_connect_page(&input, Err(diag("ICON", "no icon", "Facebook"))).unwrap_err();
    assert_eq!(d.code, "ICON");
}

#[test]
fn connect_pages_are_refused_in_order() {
    let code = |input: &ConnectInput| connect_icon_names(input).unwrap_err().code;
    let mut input = connect(&CONNECT.replace("<SlotImage", "<Image"));
    assert_eq!(code(&input), "SOURCE_UNSUPPORTED");
    input.place.source = file("/repo/ConnectPage.jsx", "export function Other");
    assert_eq!(code(&input), "EXPORT_UNSUPPORTED");
    input.place.source = file("/ConnectPage.jsx", CONNECT);
    let d = connect_icon_names(&input).unwrap_err();
    assert_eq!((d.code.as_str(), d.value.as_str()), ("SOURCE_OUTSIDE_ROOT", "/ConnectPage.jsx"));
    input.place.source = missing();
    assert_eq!(code(&input), "SOURCE_NOT_FOUND");
    input.place.source_path = None;
    assert_eq!(code(&input), "SOURCE_PATH");
    input.place.roots = None;
    assert_eq!(code(&input), "MODULE_ROOTS");
    let mut input = connect(CONNECT);
    input.has_props = true;
    assert_eq!(code(&input), "SNAPSHOT_PROPS_UNSUPPORTED");
    input.module_roots = 0;
    assert_eq!(code(&input), "MODULE_ROOTS");
}

#[test]
fn a_connect_page_has_one_to_eight_links() {
    let row = "  { href: 'https://b.example', label: 'B', handle: '@b', Icon: Facebook },\n";
    let first = "  { href: 'https://a.example', label: 'A', handle: '@a', Icon: Instagram },\n";
    let page = |n: usize| connect(&CONNECT.replace(first, "").replace(row, &row.repeat(n)));
    for n in [1, 2, 8] {
        assert_eq!(connect_icon_names(&page(n)).unwrap(), vec!["Facebook"; n]);
    }
    for n in [0, 9] {
        let d = connect_icon_names(&page(n)).unwrap_err();
        assert_eq!(
            d.message,
            "ConnectPage requires between one and eight literal social links"
        );
    }
}

fn rejected_code(action: ReactAction) -> String {
    match action {
        ReactAction::Reject { diagnostics, .. } => diagnostics[0].code.clone(),
        other => panic!("{other:?}"),
    }
}

#[test]
fn conflicting_react_inputs_reject_without_mutation() {
    let action = create_vectors_from_react(&ReactInput {
        source_path: Some("ModeSelector.jsx".into()),
        jsx: Some("<div className=\"p-2\" />".into()),
        has_source: false,
        has_snapshot: false,
    });
    assert_eq!(rejected_code(action), "INPUT_CONFLICT");
}

#[test]
fn legacy_inline_snapshot_input_is_a_structured_preflight_error() {
    let action = create_vectors_from_react(&ReactInput {
        source_path: None,
        jsx: None,
        has_source: true,
        has_snapshot: true,
    });
    assert_eq!(rejected_code(action), "SOURCE_PATH_REQUIRED");
}

#[test]
fn a_fragment_alone_is_drawn_and_nothing_is_refused() {
    let input = |jsx: Option<&str>| ReactInput {
        source_path: None,
        jsx: jsx.map(|s| s.to_string()),
        has_source: false,
        has_snapshot: false,
    };
    let action = create_vectors_from_react(&input(Some("<div className=\"bg-blue-500\" />")));
    assert!(matches!(action, ReactAction::Draw { css } if css.contains("background:#3b82f6")));
    let action = create_vectors_from_react(&input(Some("<div>{x}</div>")));
    assert!(matches!(action, ReactAction::Reject { contract_version: Some(1), .. }));
    let action = create_vectors_from_react(&input(None));
    assert!(matches!(action, ReactAction::Reject { contract_version: None, .. }));
}

#[test]
fn dry_run_reports_plans_without_node_ids_or_history() {
    let page = parsed(&directory(APP, CATALOG, CARD, TOKENS));
    let place = Destination {
        layer: 1,
        x: double(0.0),
        y: double(0.0),
        width: double(1120.0),
        height: double(720.0),
    };
    let content = &page.content;
    let (tiles, note) = layout_app_directory(
        &content.tiles,
        &content.layout,
        &content.tile_style,
        &content.source_theme,
        &place,
    );
    assert_eq!(tiles.len(), 2);
    let items: usize = tiles.iter().map(|tile| tile.items.len()).sum();
    let page_plan = PagePlan::Tiles { tiles, note };
    // Every picture of these tiles is one part and a group round it.
    let pictures = vec![1, 1];
    // The items, a part of each picture, a group round each tile, the note, the page.
    let count = items + 2 + 2 + 1 + 1;
    let ids: Vec<u128> = (1..=count as u128).collect();
    let root = count as u128;
    let report = |dry_run: bool| {
        report_import(
            PageKind::AppDirectory,
            dry_run,
            &page_plan,
            &vec![],
            &pictures,
            root,
            &ids,
        )
    };
    let mut document = Document {
        size: (double(1120.0), double(720.0)),
        boards: vec![],
        nodes: vec![],
        entries: vec![],
    };
    let plan = report(true);
    assert!(plan.root_node_ids.is_empty());
    assert!(plan.created_node_ids.is_empty());
    assert!(plan.planned_node_count > 0);
    assert_eq!(plan.planned_node_count, count);
    assert!(!plan.apply);
    assert_eq!(plan.entries, 0);
    assert_eq!(document.nodes.len(), 0);
    assert_eq!(document.entries.len(), 0);
    let run = report(false);
    assert_eq!(run.root_node_ids, vec![root]);
    assert_eq!(run.created_node_ids, ids);
    assert!(run.apply);
    assert_eq!(run.entries, 1);
    let commands = import_commands(&document, &None, place.layer, root, &ids);
    document.execute(commands);
    assert_eq!(document.nodes, ids);
    assert_eq!(document.entries.len(), 1);
    assert!(document.undo() && !document.undo());
    assert!(document.nodes.is_empty());
    assert_ne!(plan.message, run.message);
    assert_eq!(page_kind(Some("ModeSelector")), PageKind::ModeSelector);
    assert_eq!(page_kind(Some("ConnectPage")), PageKind::ConnectPage);
    assert_eq!(page_kind(None), PageKind::AppDirectory);
}
