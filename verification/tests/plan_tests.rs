use photonic_handlers::app_directory::{ImportedTile, LayoutSpec, TileStyle};
use photonic_handlers::checkin::{ButtonMetrics, LayoutMetrics};
use photonic_handlers::checkin_plan::{
    checkin_card_frame, checkin_page_tags, plan_checkin_page, text_role, CheckinStyle, MeasuredText,
    TextRole,
};
use photonic_handlers::connect_page::{connect_page_card_height, ConnectTexts, ImportedSocialLink};
use photonic_handlers::connect_plan::{
    connect_page_tags, connect_visible_texts, frame_of, grow_document, plan_connect_page, Artboard,
};
use photonic_handlers::directory_plan::{column_count, layout_app_directory};
use photonic_handlers::double::Double;
use photonic_handlers::history::{import_commands, Document};
use photonic_handlers::paths::{choose_root, is_inside, sorted_files};
use photonic_handlers::diagnostic::{severity_name, Severity};
use photonic_handlers::plan::{choose_destination, Destination, DestinationRequest, PlanItem};
use photonic_handlers::react_import::{
    count_planned, page_destination, page_group_name, page_warnings, IconParts, PageKind, PagePlan,
};
use photonic_handlers::sources::{actual_span, read_bounded_text, source_fingerprint};
use photonic_handlers::svg_icon::append_svg_asset;
use photonic_handlers::svg::{
    place_picture, svg_asset_basename, svg_import_order, validate_svg_document, SvgDocument, SvgNode,
};
use photonic_handlers::tailwind::ResponsivePx;
use photonic_handlers::theme::Theme;

fn double(value: f64) -> Double {
    Double { bits: value.to_bits() }
}

fn value(d: Double) -> f64 {
    f64::from_bits(d.bits)
}

fn destination(width: f64, height: f64) -> Destination {
    Destination {
        layer: 1,
        x: double(0.0),
        y: double(0.0),
        width: double(width),
        height: double(height),
    }
}

fn links(n: usize) -> Vec<ImportedSocialLink> {
    (0..n)
        .map(|index| ImportedSocialLink {
            href: format!("https://example.com/{index}"),
            label: format!("Link {index}"),
            handle: format!("@link{index}"),
            icon: "Instagram".into(),
        })
        .collect()
}

fn connect_texts() -> ConnectTexts {
    ConnectTexts {
        title: "Connect".into(),
        subtitle: "Stay in touch".into(),
        mailing_title: "Stay in the Loop".into(),
        mailing_body: "Newsletter".into(),
        follow_title: "Follow along".into(),
        follow_body: "Social links".into(),
    }
}

#[test]
fn eight_link_connect_page_expands_export_bounds_with_the_card() {
    let d = destination(1024.0, 768.0);
    let f = frame_of(&d, 8);
    let board = Artboard {
        id: 5,
        x: double(0.0),
        y: double(0.0),
        width: double(1120.0),
        height: double(720.0),
    };
    let mut document = Document {
        size: (double(1120.0), double(720.0)),
        boards: vec![board],
        nodes: vec![],
        entries: vec![],
    };
    let g = grow_document(document.size, &document.boards, Some(5), &d, &f);
    assert_eq!(value(g.height), 920.0);
    assert!(g.resize && g.set_boards);
    assert_eq!(value(g.boards[0].height), 920.0);
    let growth = Some(g);
    let items = plan_connect_page(&d, &connect_texts(), &links(8));
    let icons = vec![IconParts { name: "Instagram".into(), outlines: 3 }];
    let count = count_planned(&PagePlan::Items(items), &icons, &vec![]);
    let ids: Vec<u128> = (1..=count as u128).collect();
    let commands = import_commands(&document, &growth, d.layer, count as u128, &ids);
    assert_eq!(commands.len(), 3);
    document.execute(commands);
    assert_eq!(value(document.size.1), 920.0);
    assert_eq!(value(document.boards[0].height), 920.0);
    assert_eq!(document.nodes, ids);
    assert_eq!(document.entries.len(), 1);
    assert!(document.undo());
    assert_eq!(value(document.size.1), 720.0);
    assert_eq!(value(document.boards[0].height), 720.0);
    assert!(document.nodes.is_empty());
    // Whatever nodes there were, they are there again.
    document.nodes = vec![2, 900, 1];
    let commands = import_commands(&document, &None, d.layer, count as u128, &ids);
    document.execute(commands);
    assert_eq!((document.nodes.len(), document.entries.len()), (3 + ids.len(), 1));
    assert!(document.undo());
    assert_eq!((document.nodes.as_slice(), document.entries.len()), ([2, 900, 1].as_slice(), 0));
    document.nodes = vec![];
    assert!(!document.undo());
    let g = growth.unwrap();
    assert_eq!(
        188.0 + value(connect_page_card_height(double(768.0), 8)),
        value(g.boards[0].height) - 48.0
    );
    let small = frame_of(&destination(600.0, 400.0), 1);
    let g = grow_document(
        (double(1280.0), double(2000.0)),
        &vec![Artboard { height: double(2000.0), ..board }],
        Some(5),
        &destination(600.0, 400.0),
        &small,
    );
    assert!(!g.resize && !g.set_boards);
}

#[test]
fn a_connect_page_shows_every_link() {
    let d = destination(1024.0, 768.0);
    let items = plan_connect_page(&d, &connect_texts(), &links(3));
    let texts: Vec<_> = items
        .iter()
        .filter_map(|i| match i {
            PlanItem::Text { content, .. } => Some(content.as_str()),
            _ => None,
        })
        .collect();
    for text in connect_visible_texts(&connect_texts(), &links(3)) {
        assert!(texts.contains(&text.as_str()), "{text}");
    }
    let icons = items.iter().filter(|i| matches!(i, PlanItem::Icon { .. })).count();
    assert_eq!(icons, 3);
    let tags = connect_page_tags(&links(1));
    assert_eq!(tags[0], "react-role:page");
    assert_eq!(*tags.last().unwrap(), "href:https://example.com/0");
}

fn checkin_style() -> CheckinStyle {
    CheckinStyle {
        layout: LayoutMetrics {
            card_width: double(500.0),
            card_padding: ResponsivePx {
                base: double(20.0),
                variants: vec![(double(768.0), double(40.0))],
            },
            outer_padding: double(20.0),
            card_radius: 12,
            card_top_border_width: double(5.0),
            section_gap: double(24.0),
        },
        button: ButtonMetrics {
            primary_token: "primary-blue".into(),
            height: double(48.0),
            horizontal_padding: double(40.0),
            gap: double(8.0),
            icon_size: double(16.0),
            icon_margin_right: double(8.0),
        },
        blue: "#005a9c".into(),
        gold: "#fdb813".into(),
        primary_blue: "#007bff".into(),
        icons: vec!["Calendar".into(), "Users".into(), "LogOut".into()],
    }
}

fn measured(content: &str) -> MeasuredText {
    MeasuredText { content: content.into(), width: double(90.0), height: double(20.0) }
}

#[test]
fn checkin_inline_flex_and_top_border_lower_to_source_geometry() {
    let d = destination(1024.0, 768.0);
    let s = checkin_style();
    let ts = vec![measured("Welcome!"), measured("Select Event"), measured("Continue")];
    let items = plan_checkin_page(&d, &s, &measured("Exit Kiosk"), &ts).unwrap();
    let frame = checkin_card_frame(&d, &s.layout);
    let mut button = None;
    let mut icon = None;
    let mut label = None;
    for i in &items {
        match i {
            PlanItem::TopBorder { left, right, top, stroke_width, .. } => {
                let half = value(*stroke_width) / 2.0;
                assert!((value(*left) - half - value(frame.x)).abs() < 0.01);
                assert!(
                    (value(*right) + half - value(frame.x) - value(frame.width)).abs() < 0.01
                );
                assert!((value(*top) - half - value(frame.y)).abs() < 0.01);
            }
            PlanItem::Rect { name, x, y, w, h, .. } if name == "Button: Select Event" => {
                button = Some((
                    value(*x) + value(*w) / 2.0,
                    value(*y) + value(*h) / 2.0,
                ));
            }
            PlanItem::Icon { name, x, y, size, .. } if name == "Calendar" => {
                icon = Some((value(*x), value(*y), value(*size)));
            }
            PlanItem::Text { content, x, y, .. } if content == "Select Event" => {
                label = Some((value(*x), value(*y)));
            }
            _ => {}
        }
    }
    let (button, icon, label) = (button.unwrap(), icon.unwrap(), label.unwrap());
    assert!(((icon.0 + label.0 + 90.0) / 2.0 - button.0).abs() < 0.01);
    assert!((icon.1 + icon.2 / 2.0 - button.1).abs() < 0.01);
    assert!((label.1 + 10.0 - button.1).abs() < 0.01);
    assert!((label.0 - icon.0 - icon.2 - 8.0 - 8.0).abs() < 0.01);
}

#[test]
fn a_checkin_page_needs_its_icons() {
    let d = destination(1024.0, 768.0);
    let mut s = checkin_style();
    s.icons = vec!["LogOut".into()];
    let ts = vec![measured("Select Event")];
    assert_eq!(
        plan_checkin_page(&d, &s, &measured("Exit Kiosk"), &ts).unwrap_err(),
        "preflighted Calendar icon is missing"
    );
    assert_eq!(text_role("Continue"), TextRole::VisitButton);
    assert_eq!(text_role("anything"), TextRole::Plain);
    assert_eq!(
        checkin_page_tags(&vec!["onClick={x}".into()]),
        vec!["react-role:page", "source-export:ModeSelector", "stripped-interaction:onClick={x}"]
    );
}

#[test]
fn tiles_are_laid_out_in_columns() {
    let layout = LayoutSpec { gap: double(16.0), desktop_columns: 3 };
    assert_eq!(column_count(&layout, double(1120.0)), 3);
    assert_eq!(column_count(&layout, double(f64::NAN)), 1);
    let style = TileStyle {
        padding: double(20.0),
        content_gap: double(16.0),
        badge: 48,
        icon_radius: 8,
        card_radius: 12,
        card_border_width: 1,
        title_size: 16,
        title_weight: 600,
        description_size: 14,
    };
    let theme = Theme {
        card: "#ffffff".into(),
        foreground: "#030712".into(),
        muted: "#646a77".into(),
        border: "#e5e7eb".into(),
    };
    let tile = |n: &str| ImportedTile {
        name: n.into(),
        description: "d".into(),
        icon: "i".into(),
        url: format!("https://{n}.example"),
    };
    let tiles = vec![tile("one"), tile("two"), tile("three"), tile("four")];
    let (groups, _) =
        layout_app_directory(&tiles, &layout, &style, &theme, &destination(1120.0, 720.0));
    assert_eq!(groups.len(), 4);
    assert_eq!(groups[0].tags, vec!["react-role:link", "href:https://one.example"]);
    let origin = |g: usize| match &groups[g].items[0] {
        PlanItem::Rect { x, y, stroke, stroke_width, .. } => {
            assert_eq!((stroke.as_str(), value(*stroke_width)), ("#e5e7eb", 1.0));
            (value(*x), value(*y))
        }
        other => panic!("{other:?}"),
    };
    assert_eq!(origin(0).1, origin(2).1);
    assert_eq!(origin(0).0, origin(3).0);
    assert!(origin(3).1 > origin(0).1);
}

#[test]
fn kinds_of_pages_have_their_room_their_names_and_their_warnings() {
    let q = |w: f64, h: f64| DestinationRequest {
        layer: Some(1),
        active_layer: None,
        viewport: Some((double(w), double(h))),
        board: (double(1.0), double(1.0)),
        origin: Some((double(f64::INFINITY), double(0.0))),
        board_origin: (double(0.0), double(0.0)),
        open_layers: vec![1],
    };
    let none = None;
    for (kind, w, h, size, origin, name) in [
        (
            PageKind::ModeSelector,
            500.0,
            600.0,
            "ModeSelector viewport must be finite and at least 500 by 600",
            "ModeSelector origin must be finite",
            "BGCH Check-In ModeSelector",
        ),
        (
            PageKind::ConnectPage,
            480.0,
            420.0,
            "viewport must be finite and at least 480 by 420",
            "origin must be finite",
            "One Day Dance ConnectPage",
        ),
        (
            PageKind::AppDirectory,
            240.0,
            180.0,
            "viewport must be finite and at least 240 by 180",
            "origin must be finite",
            "React source snapshot",
        ),
    ] {
        assert_eq!(page_destination(kind, &q(w - 1.0, h)).unwrap_err(), size);
        assert_eq!(page_destination(kind, &q(w, h - 1.0)).unwrap_err(), size);
        assert_eq!(page_destination(kind, &q(w, f64::NAN)).unwrap_err(), size);
        assert_eq!(page_destination(kind, &q(w, h)).unwrap_err(), origin);
        let placed = DestinationRequest { origin: None, ..q(w, h) };
        assert_eq!(value(page_destination(kind, &placed).unwrap().width), w);
        assert_eq!(page_group_name(kind, &none), name);
        assert_eq!(page_group_name(kind, &Some("Mine".into())), "Mine");
        let about: Vec<_> = page_warnings(kind).into_iter().map(|w| (w.severity, w.value)).collect();
        if kind == PageKind::ConnectPage {
            let known = ["SlotImage", "NewsletterSignupWidget"];
            assert_eq!(about, known.map(|v| (Severity::Warning, v.to_string())));
        } else {
            assert!(about.is_empty());
        }
    }
    assert_eq!((severity_name(Severity::Error), severity_name(Severity::Warning)), ("error", "warning"));
}

#[test]
fn destinations_are_checked_in_order() {
    let q = || DestinationRequest {
        layer: None,
        active_layer: Some(1),
        viewport: None,
        board: (double(1280.0), double(720.0)),
        origin: None,
        board_origin: (double(3.0), double(4.0)),
        open_layers: vec![1],
    };
    let go = |q: &DestinationRequest| {
        choose_destination(q, double(240.0), double(180.0), "too small", "origin must be finite")
    };
    let d = go(&q()).unwrap();
    assert_eq!((value(d.width), value(d.x)), (1280.0, 3.0));
    let mut bad = q();
    bad.origin = Some((double(f64::NAN), double(0.0)));
    assert_eq!(go(&bad).unwrap_err(), "origin must be finite");
    bad.open_layers = vec![];
    assert_eq!(go(&bad).unwrap_err(), "destination layer is missing or locked");
    bad.viewport = Some((double(239.0), double(180.0)));
    assert_eq!(go(&bad).unwrap_err(), "too small");
    bad.active_layer = None;
    assert_eq!(go(&bad).unwrap_err(), "Document has no active layer");
}

fn parts(path: &str) -> Vec<String> {
    path.split('/').map(|s| s.to_string()).collect()
}

#[test]
fn the_innermost_root_counts_and_files_come_in_order() {
    let roots = vec![parts("a"), parts("a/b"), parts("c")];
    assert_eq!(choose_root(&roots, &parts("a/b/f")), Some(1));
    assert_eq!(choose_root(&roots, &parts("d/f")), None);
    assert!(is_inside(&parts("a"), &parts("a")) && !is_inside(&parts("ab"), &parts("a")));
    let sorted = sorted_files(vec![parts("b"), parts("a/z"), parts("b"), parts("a")]);
    assert_eq!(sorted, vec![parts("a"), parts("a/z"), parts("b")]);
}

#[test]
fn sources_are_bounded_and_hashed_with_their_lengths() {
    let text = |size: Option<u64>, bytes: Option<Vec<u8>>| {
        read_bounded_text("f", "CODE", 4, size, bytes)
    };
    assert_eq!(text(Some(2), Some(b"ab".to_vec())).unwrap(), "ab");
    assert_eq!(text(Some(2), Some("ä".as_bytes().to_vec())).unwrap(), "ä");
    assert_eq!(text(None, None).unwrap_err().message, "source file metadata is unavailable");
    assert_eq!(text(Some(1), None).unwrap_err().message, "source file is not readable");
    assert_eq!(text(Some(5), None).unwrap_err().code, "CODE_LIMIT");
    assert_eq!(text(Some(1), Some(vec![0; 5])).unwrap_err().code, "CODE_LIMIT");
    assert_eq!(
        text(Some(1), Some(vec![0xc3])).unwrap_err().message,
        "source file is not readable UTF-8"
    );
    let native = |files: &[&[u8]]| {
        let mut hash = 14695981039346656037u64;
        for f in files {
            for b in (f.len() as u64).to_le_bytes().iter().chain(f.iter()) {
                hash = (hash ^ *b as u64).wrapping_mul(1099511628211);
            }
        }
        format!("{hash:016x}")
    };
    let ours = |files: &[&[u8]]| source_fingerprint(&files.iter().map(|f| f.to_vec()).collect());
    for files in [&[b"ab" as &[u8], b"c"][..], &[b"a", b"bc"], &[], &[b"", b""], &[b"abc"]] {
        assert_eq!(ours(files), native(files));
    }
    assert_ne!(ours(&[b"ab", b"c"]), ours(&[b"a", b"bc"]));
    let span = actual_span("one\ntwo ä three", "three");
    assert_eq!((span.byte_start, span.byte_end), (11, 16));
    assert_eq!((span.line_start, span.column_start), (2, 8));
}

fn svg_node(id: u128, children: Vec<u128>) -> SvgNode {
    let (one, zero) = (double(1.0), double(0.0));
    SvgNode {
        id,
        editable: true,
        group: !children.is_empty(),
        children,
        matrix: [one, zero, zero, one, zero, zero],
    }
}

fn svg(nodes: Vec<SvgNode>, roots: Vec<u128>) -> SvgDocument {
    SvgDocument { width: double(20.0), height: double(10.0), nodes, roots }
}

#[test]
fn pictures_are_imported_once_and_within_bounds() {
    let doc = svg(vec![svg_node(1, vec![2, 3, 1]), svg_node(2, vec![3]), svg_node(3, vec![])], vec![1]);
    let order: Vec<_> = svg_import_order(&doc).iter().map(|s| (s.index, s.parent)).collect();
    assert_eq!(order, vec![(0, None), (1, Some(0)), (2, Some(1))]);
    assert!(validate_svg_document(&doc, "f").is_ok());
    let code = |d: SvgDocument| validate_svg_document(&d, "f").unwrap_err().code;
    let deep = svg(
        (0..70).map(|i| svg_node(i, vec![i + 1])).collect(),
        vec![0],
    );
    assert_eq!(code(deep), "ASSET_SVG_DEPTH");
    let many = svg((0..4097).map(|i| svg_node(i, vec![])).collect(), vec![]);
    assert_eq!(code(many), "ASSET_SVG_LIMIT");
    let mut odd = svg(vec![svg_node(1, vec![])], vec![1]);
    odd.nodes[0].matrix[4] = double(f64::INFINITY);
    assert_eq!(code(odd), "ASSET_SVG_NONFINITE");
    let mut text = svg(vec![svg_node(1, vec![])], vec![1]);
    text.nodes[0].editable = false;
    assert_eq!(code(text), "ASSET_SVG_UNSUPPORTED");
    assert_eq!(code(SvgDocument { height: double(-1.0), ..svg(vec![], vec![]) }), "ASSET_SVG_VIEWPORT");
    let (scale, x, y) =
        place_picture(double(20.0), double(10.0), double(100.0), double(50.0), double(48.0));
    assert_eq!((value(scale), value(x), value(y)), (2.4, 100.0, 62.0));
    let name = |url: &str| svg_asset_basename(url);
    assert_eq!(name("https://people.bgcharlem.org/a-icon.svg").unwrap(), "a-icon.svg");
    assert_eq!(name("https://evil.example/a-icon.svg").unwrap_err().code, "ASSET_URL_UNSUPPORTED");
    assert_eq!(
        name("https://people.bgcharlem.org/../a-icon.svg").unwrap_err().code,
        "ASSET_BASENAME_UNSAFE"
    );
}

#[test]
fn an_icon_keeps_what_its_ancestors_do() {
    let mut doc = svg(
        vec![svg_node(1, vec![2, 9]), svg_node(2, vec![3]), svg_node(3, vec![])],
        vec![1, 7],
    );
    let set = |m: [f64; 6]| m.map(double);
    doc.nodes[0].matrix = set([2.0, 0.0, 0.0, 2.0, 1.0, 0.0]);
    doc.nodes[1].matrix = set([1.0, 0.0, 0.0, 3.0, 0.0, 5.0]);
    doc.nodes[2].matrix = set([1.0, 0.0, 0.0, 1.0, 4.0, 4.0]);
    let icon = append_svg_asset(
        &doc,
        "Mail",
        "https://people.bgcharlem.org/mail-icon.svg",
        "/repo/mail-icon.svg",
        double(100.0),
        double(50.0),
        double(40.0),
    );
    // The box doubles the picture and moves it to (100, 60).
    let map = |m: photonic_handlers::bezier::Affine| [m.a, m.b, m.c, m.d, m.e, m.f].map(value);
    let worlds: Vec<_> = icon.parts.iter().map(|p| map(p.world)).collect();
    assert_eq!(worlds[0], [4.0, 0.0, 0.0, 4.0, 102.0, 60.0]);
    assert_eq!(worlds[1], [4.0, 0.0, 0.0, 12.0, 102.0, 80.0]);
    assert_eq!(worlds[2], [4.0, 0.0, 0.0, 12.0, 118.0, 128.0]);
    let maps: Vec<_> = icon.parts.iter().map(|p| map(p.transform)).collect();
    let identity = [1.0, 0.0, 0.0, 1.0, 0.0, 0.0];
    assert_eq!(maps, vec![identity, identity, worlds[2]]);
    let scales: Vec<_> = icon.parts.iter().map(|p| p.stroke_scale.map(value)).collect();
    assert_eq!(scales, vec![None, None, Some(48.0f64.sqrt())]);
    let children: Vec<_> = icon.parts.iter().map(|p| p.children.clone()).collect();
    assert_eq!(children, vec![vec![1], vec![2], vec![]]);
    assert_eq!(icon.roots, vec![0]);
    assert_eq!(icon.name, "App icon: Mail");
    assert_eq!(icon.role_tag, "react-role:image");
    assert_eq!(icon.source_tag, "source:https://people.bgcharlem.org/mail-icon.svg");
    assert_eq!(icon.file_tag, "source-file:/repo/mail-icon.svg");
    doc.nodes[2].matrix[0] = double(f64::MAX);
    let wide = append_svg_asset(&doc, "", "", "", double(0.0), double(0.0), double(40.0));
    assert_eq!(wide.parts[2].stroke_scale, None);
}
