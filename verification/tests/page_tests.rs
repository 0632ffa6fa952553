use photonic_handlers::app_directory::{parse_grid_layout, parse_suite_apps, parse_tile_style};
use photonic_handlers::connect_page::{connect_page_canvas_height, connect_page_card_height};
use photonic_handlers::double::Double;
use photonic_handlers::theme::{parse_light_theme, theme, Theme, ThemeTokens};

fn double(value: f64) -> Double {
    Double { bits: value.to_bits() }
}

fn value(d: Double) -> f64 {
    f64::from_bits(d.bits)
}

#[test]
fn catalog_literals_drive_imported_tile_content() {
    let source = "const ICON_ORIGIN = 'https://icons.example';\nconst SUITE_APPS = [\n{ id: 'x', name: 'ALPHA', icon: `${ICON_ORIGIN}/alpha-icon.svg`, url: 'https://alpha.example', description: 'First literal' },\n];\n";
    let mut tiles = parse_suite_apps(source).unwrap();
    assert_eq!(tiles[0].name, "ALPHA");
    assert_eq!(tiles[0].description, "First literal");
    assert_eq!(tiles[0].url, "https://alpha.example");
    assert_eq!(tiles[0].icon, "https://icons.example/alpha-icon.svg");
    let changed = source.replace("First literal", "Changed literal");
    tiles = parse_suite_apps(&changed).unwrap();
    assert_eq!(tiles[0].description, "Changed literal");
}

#[test]
fn catalog_dynamic_field_is_a_diagnostic() {
    let source = "const ICON_ORIGIN = 'https://icons.example';\nconst SUITE_APPS = [\n{ name: app.name, icon: `${ICON_ORIGIN}/x.svg`, url: 'https://x.example', description: 'x' },\n];\n";
    assert_eq!(parse_suite_apps(source).unwrap_err().code, "CATALOG_DYNAMIC");
}

#[test]
fn literal_tailwind_gap_drives_layout_spec() {
    let baseline =
        r#"<div className="grid grid-cols-1 gap-4 sm:grid-cols-2 lg:grid-cols-3">{tiles.map("#;
    let changed = baseline.replace("gap-4", "gap-8");
    assert_eq!(value(parse_grid_layout(baseline).unwrap().gap), 16.0);
    assert_eq!(value(parse_grid_layout(&changed).unwrap().gap), 32.0);
    assert_eq!(parse_grid_layout(&changed).unwrap().desktop_columns, 3);
}

#[test]
fn last_grid_is_the_active_non_loading_grid() {
    let source = r#"<div className="grid grid-cols-1 gap-4 sm:grid-cols-2 lg:grid-cols-3"><div className="grid grid-cols-1 gap-8 sm:grid-cols-2 lg:grid-cols-3">{tiles.map("#;
    assert_eq!(value(parse_grid_layout(source).unwrap().gap), 32.0);
}

#[test]
fn icon_origin_literal_drives_url() {
    let source = "const ICON_ORIGIN = 'https://new-icons.example';\nconst SUITE_APPS = [{ name: 'A', icon: `${ICON_ORIGIN}/a.svg`, url: 'https://a.example', description: 'A' },\n];\n";
    assert_eq!(parse_suite_apps(source).unwrap()[0].icon, "https://new-icons.example/a.svg");
}

#[test]
fn tile_tailwind_literals_drive_style_model() {
    let baseline = r#"<CardContent className="flex items-center gap-4 p-5"><img className="h-12 w-12 rounded-lg"/><span className="font-semibold"/><p className="text-sm"/>"#;
    let changed = baseline
        .replace("gap-4", "gap-8")
        .replace("p-5", "p-8")
        .replace("h-12 w-12", "h-16 w-16")
        .replace("rounded-lg", "rounded-xl")
        .replace("text-sm", "text-base")
        .replace("font-semibold", "font-bold");
    let card = "const Card = <div className={cn(\"rounded-xl border bg-card text-card-foreground shadow\", className)} />; const CardContent = <div className={cn(\"p-6 pt-0\", className)} />;";
    let a = parse_tile_style(baseline, card).unwrap();
    let b = parse_tile_style(&changed, card).unwrap();
    assert_eq!(value(a.padding), 20.);
    assert_eq!(value(b.padding), 32.);
    assert_eq!(value(a.content_gap), 16.);
    assert_eq!(value(b.content_gap), 32.);
    assert_eq!(a.badge, 48);
    assert_eq!(b.badge, 64);
    assert_eq!(a.icon_radius, 8);
    assert_eq!(b.icon_radius, 12);
    assert_eq!(a.card_radius, 12);
    assert_eq!(a.card_border_width, 1);
    assert_eq!(a.description_size, 14);
    assert_eq!(b.description_size, 16);
    assert_eq!(a.title_weight, 600);
    assert_eq!(b.title_weight, 700);
}

#[test]
fn explicit_theme_tokens_drive_paints() {
    let tokens = ThemeTokens {
        card: Some("#112233".into()),
        foreground: Some("#445566".into()),
        muted_foreground: Some("#778899".into()),
        border: Some("#aabbcc".into()),
    };
    let source = Theme {
        card: "#ffffff".into(),
        foreground: "#000000".into(),
        muted: "#111111".into(),
        border: "#222222".into(),
    };
    let parsed = theme(&tokens, &source, [true; 4]).unwrap();
    assert_eq!(parsed.card, "#112233");
    assert_eq!(parsed.foreground, "#445566");
    assert_eq!(parsed.muted, "#778899");
    assert_eq!(parsed.border, "#aabbcc");
    assert_eq!(
        theme(&tokens, &source, [true, false, true, false]).unwrap_err(),
        "theme token must be hex: #445566"
    );
}

#[test]
fn light_hsl_theme_tokens_become_hex() {
    let parsed = parse_light_theme(
        ":root {\n--card: 0 0% 100%;\n--foreground: 224 71.4% 4.1%;\n--muted-foreground: 220 8.9% 43%;\n--border: 220 13% 91%;\n}\n.dark { --card: 0 0% 0%; }",
    )
    .unwrap();
    assert_eq!(parsed.card, "#ffffff");
    assert_eq!(parsed.foreground, "#030712");
    assert_eq!(parsed.muted, "#646a77");
    assert_eq!(parsed.border, "#e5e7eb");
}

#[test]
fn connect_page_card_height_contains_all_accepted_social_rows() {
    let final_row_bottom = 116.0 + 7.0 * 70.0 + 54.0;
    let card_height = value(connect_page_card_height(double(768.0), 8));
    assert!(card_height >= final_row_bottom + 24.0, "{card_height}");
    assert_eq!(value(connect_page_card_height(double(768.0), 4)), 532.0);
}

#[test]
fn connect_page_canvas_contains_the_tallest_accepted_card() {
    let card_height = connect_page_card_height(double(768.0), 8);
    let canvas_height = value(connect_page_canvas_height(double(768.0), card_height));
    assert_eq!(canvas_height, 920.0);
    assert!(188.0 + value(card_height) <= canvas_height - 48.0);
    assert_eq!(
        value(connect_page_canvas_height(
            double(768.0),
            connect_page_card_height(double(768.0), 4)
        )),
        768.0
    );
}
