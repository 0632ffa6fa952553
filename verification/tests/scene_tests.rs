use photonic_handlers::bezier::{Affine, Bounds};
use photonic_handlers::double::Double;
use photonic_handlers::find_replace::{
    find_replace_style, find_replace_text, Change, FindReplaceStyleArgs, FindReplaceTextArgs,
};
use photonic_handlers::frames::{link_text_frames, unlink_text_frames};
use photonic_handlers::scene::{
    find_node_by_name, resolve_node_id, resolve_targets, Color, ColorArg, Fill, Node, NodeKind,
    ScriptPosition, TextAlign, TextState,
};
use photonic_handlers::selection::{
    add_all_to_selection, catches, deselect_all, find_nodes, get_selection, lasso_points, lasso_select, magic_wand_select,
    select_all, select_by_kind, select_inside_group, select_same, set_selection, topmost_hit,
    FindNodesArgs, GroupSelected, LassoHit, Layer, Likeness, ObjectKindFilter, Region,
    SelectSameAttribute,
};
use photonic_handlers::similar::select_similar;
use photonic_handlers::text_styles::{
    apply_character_style, apply_paragraph_style, create_character_style, create_paragraph_style,
    delete_character_style, delete_paragraph_style, list_character_styles, list_paragraph_styles, CharacterStyle, ParagraphStyle,
};
use photonic_handlers::typography::{
    align_name, bind_text_variable, clear_text_area, clear_text_path, create_text,
    get_opentype_features, ordered_stops, parse_align, set_character_metrics, set_font_style,
    set_font_weight, set_opentype_features, set_paragraph_options, set_tab_stops, set_text_area,
    set_text_decoration, set_text_direction, set_text_path, unbind_text_variable, FontStyle,
    Lettering, ScriptArg, TextRequest,
};

fn double(value: f64) -> Double {
    Double { bits: value.to_bits() }
}

fn value(d: Double) -> f64 {
    f64::from_bits(d.bits)
}

fn color(r: f64, g: f64, b: f64) -> Color {
    Color { r: double(r), g: double(g), b: double(b), a: double(1.0) }
}

fn bounds(x0: f64, y0: f64, x1: f64, y1: f64) -> Bounds {
    Bounds { x0: double(x0), y0: double(y0), x1: double(x1), y1: double(y1) }
}

fn node(id: u128, name: &str, kind: NodeKind) -> Node {
    Node {
        id,
        name: name.into(),
        layer: 1,
        kind,
        tags: vec![],
        visible: true,
        locked: false,
        opacity: double(1.0),
        blend_mode: 0,
        bounds: Some(bounds(0.0, 0.0, 10.0, 10.0)),
        transform: Affine {
            a: double(1.0),
            b: double(0.0),
            c: double(0.0),
            d: double(1.0),
            e: double(0.0),
            f: double(0.0),
        },
        children: vec![],
        fill_enabled: true,
        fill: Fill::Solid(color(1.0, 0.0, 0.0)),
        stroke_enabled: false,
        stroke_color: color(0.0, 0.0, 0.0),
        stroke_width: double(1.0),
        font_family: "Inter".into(),
        content: String::new(),
        text: TextState {
            font_size: double(16.0),
            font_weight: 400,
            letter_spacing: double(0.0),
            line_height: double(1.5),
            align: TextAlign::Left,
            baseline_shift: double(0.0),
            script_position: ScriptPosition::Normal,
            spacing_before: double(0.0),
            spacing_after: double(0.0),
            indent: double(0.0),
            area_path: None,
            path_spine: None,
            features: vec![],
            variable: None,
            prev_frame: None,
            next_frame: None,
        },
        blend_spine: None,
        symbol: None,
    }
}

fn names(list: &[&str]) -> Vec<String> {
    list.iter().map(|s| s.to_string()).collect()
}

fn search() -> FindNodesArgs {
    FindNodesArgs {
        limit: None,
        visible_only: false,
        layer_id: None,
        node_type: None,
        tags: None,
        tags_any: None,
        name_contains: None,
        in_region: None,
    }
}

fn scene() -> Vec<Node> {
    let mut group = node(3, "Group", NodeKind::Group);
    group.children = vec![1, 2];
    let mut text = node(2, "Title ÄÖ", NodeKind::Text);
    text.content = "Hello world, hello you".into();
    text.tags = names(&["hero", "copy"]);
    let mut hidden = node(4, "Hidden", NodeKind::Path);
    hidden.visible = false;
    hidden.layer = 2;
    hidden.bounds = Some(bounds(100.0, 100.0, 110.0, 110.0));
    vec![node(1, "Box", NodeKind::Path), text, group, hidden]
}

#[test]
fn nodes_are_found_by_every_criterion() {
    let nodes = scene();
    assert_eq!(find_nodes(&nodes, &search()).positions, vec![0, 1, 2, 3]);
    let mut args = search();
    args.name_contains = Some("äö".into());
    assert_eq!(find_nodes(&nodes, &args).positions, vec![1]);
    let mut args = search();
    args.tags = Some(names(&["hero", "copy"]));
    assert_eq!(find_nodes(&nodes, &args).positions, vec![1]);
    args.tags = Some(names(&["hero", "none"]));
    assert_eq!(find_nodes(&nodes, &args).positions.len(), 0);
    let mut args = search();
    args.tags_any = Some(names(&["hero", "none"]));
    assert_eq!(find_nodes(&nodes, &args).positions, vec![1]);
    let mut args = search();
    args.visible_only = true;
    args.node_type = Some("path".into());
    assert_eq!(find_nodes(&nodes, &args).positions, vec![0]);
    let mut args = search();
    args.layer_id = Some(2);
    assert_eq!(find_nodes(&nodes, &args).positions, vec![3]);
    let mut args = search();
    args.in_region = Some(Region {
        x: double(90.0),
        y: double(90.0),
        width: double(50.0),
        height: double(50.0),
    });
    assert_eq!(find_nodes(&nodes, &args).positions, vec![3]);
    let mut args = search();
    args.limit = Some(2);
    let found = find_nodes(&nodes, &args);
    assert_eq!(found.positions, vec![0, 1]);
    assert!(found.truncated);
    assert_eq!(found.message, "Found 2 node(s) (results truncated)");
}

#[test]
fn a_written_id_names_its_node_before_any_name() {
    let id = 0x0123_4567_89ab_cdef_0123_4567_89ab_cdef_u128;
    let text = "01234567-89ab-cdef-0123-456789abcdef";
    let nodes = vec![node(9, text, NodeKind::Path), node(id, "Other", NodeKind::Path)];
    assert_eq!(resolve_node_id(&nodes, text), Some(id));
    assert_eq!(resolve_node_id(&nodes, "{01234567-89AB-CDEF-0123-456789ABCDEF}"), Some(id));
    assert_eq!(resolve_node_id(&nodes, "Other"), Some(id));
    assert_eq!(resolve_node_id(&nodes, "missing"), None);
    assert_eq!(find_node_by_name(&nodes, "Other"), Some(id));
    assert_eq!(resolve_targets(&nodes, &vec![5], &vec![]), vec![5]);
    assert_eq!(resolve_targets(&nodes, &vec![5], &names(&["Other", "missing"])), vec![id]);
}

#[test]
fn a_selection_grows_without_repeating_a_node() {
    let mut selection = vec![1, 2];
    add_all_to_selection(&mut selection, &vec![2, 3, 3, 1, 4]);
    assert_eq!(selection, vec![1, 2, 3, 4]);
    let nodes = scene();
    let s = set_selection(&nodes, &vec![3], &names(&["Box", "missing"]), true);
    assert_eq!(s.selection, vec![3, 1]);
    assert_eq!(s.message, "Selection: 1 added, 2 total");
    assert_eq!(set_selection(&nodes, &vec![3], &names(&["Box"]), false).selection, vec![1]);
    assert_eq!(get_selection(&nodes, &vec![2, 99]).0, vec![1]);
    assert_eq!(get_selection(&nodes, &vec![]).1, "Nothing selected");
    let s = deselect_all(&vec![1, 2]);
    assert!(s.selection.is_empty());
    assert_eq!(s.message, "Deselected 2 node(s)");
}

#[test]
fn nodes_are_selected_by_kind_layer_group_and_lasso() {
    let nodes = scene();
    let layers = vec![
        Layer { id: 1, name: "Base".into(), locked: false },
        Layer { id: 2, name: "Top".into(), locked: true },
    ];
    assert_eq!(select_all(&nodes, &layers, None).selection, vec![1, 2, 3, 4]);
    assert_eq!(select_all(&nodes, &layers, Some("Top")).selection, vec![4]);
    assert_eq!(select_all(&nodes, &layers, Some("no layer")).count, 4);
    let s = select_by_kind(&nodes, &vec![], Some(1), ObjectKindFilter::Text, false);
    assert_eq!(s.selection, vec![2]);
    assert_eq!(s.message, "Selected 1 text node(s)");
    match select_inside_group(&nodes, &vec![], 3, false, "Group") {
        GroupSelected::Children(s) => assert_eq!(s.selection, vec![1, 2]),
        other => panic!("{other:?}"),
    }
    match select_inside_group(&nodes, &vec![], 1, false, "Path") {
        GroupSelected::Refused(m) => assert!(m.ends_with(" is not a group (kind: Path)")),
        other => panic!("{other:?}"),
    }
    assert!(matches!(
        select_inside_group(&nodes, &vec![], 77, false, ""),
        GroupSelected::Refused(_)
    ));
    let hits = vec![
        LassoHit { id: 1, visible: true, inside: vec![false, false, true, false] },
        LassoHit { id: 2, visible: false, inside: vec![true; 4] },
        LassoHit { id: 3, visible: true, inside: vec![false; 4] },
        LassoHit { id: 4, visible: true, inside: vec![] },
    ];
    assert_eq!(lasso_select(3, &hits, &vec![], false).unwrap().selection, vec![1]);
    let caught: Vec<bool> = hits.iter().map(catches).collect();
    assert_eq!(caught, vec![true, false, false, false]);
    let area = bounds(0.0, 10.0, 4.0, 20.0);
    let points = |centroid| -> Vec<(f64, f64)> {
        lasso_points(&area, centroid).iter().map(|p| (value(p.x), value(p.y))).collect()
    };
    assert_eq!(points(true), vec![(2.0, 15.0)]);
    assert_eq!(points(false), vec![(0.0, 10.0), (4.0, 10.0), (0.0, 20.0), (4.0, 20.0)]);
    assert_eq!(
        lasso_select(2, &hits, &vec![], false).unwrap_err(),
        "lasso_select requires at least 3 points to form a closed polygon"
    );
}

fn like(fill: f64) -> Likeness {
    Likeness { solid: true, fill_distance: double(fill), stroke_distance: double(9.0) }
}

#[test]
fn like_nodes_are_selected_within_the_tolerance() {
    let nodes = vec![
        node(1, "A", NodeKind::Path),
        node(2, "B", NodeKind::Path),
        node(3, "C", NodeKind::Path),
    ];
    let likes = vec![like(0.0), like(0.25), like(0.75)];
    let s = select_same(
        &nodes,
        &likes,
        1,
        SelectSameAttribute::FillColor,
        double(0.5),
        true,
    )
    .unwrap();
    assert_eq!(s.selection, vec![1, 2]);
    assert!(s.message.ends_with("fill color."));
    let e = select_same(&nodes, &likes, 9, SelectSameAttribute::Opacity, double(0.5), true);
    assert!(e.unwrap_err().starts_with("reference node "));
    let boxes = vec![
        Some(bounds(0.0, 0.0, 10.0, 10.0)),
        Some(bounds(5.0, 5.0, 15.0, 15.0)),
        None,
    ];
    assert_eq!(topmost_hit(&nodes, &boxes, double(7.0), double(7.0)).is_some(), true);
    assert_eq!(
        magic_wand_select(
            &nodes,
            &boxes,
            &likes,
            double(99.0),
            double(99.0),
            SelectSameAttribute::FillColor,
            double(1.0)
        )
        .unwrap_err(),
        "No node found at the specified canvas coordinates"
    );
    let (found, s) = select_similar(&nodes, &vec![], &names(&["A"]), None, Some(0), false).unwrap();
    assert_eq!(found, 2);
    assert_eq!(s.selection.len(), 3);
    assert_eq!(s.message, "Selected 3 node(s) matching fill_color (tolerance=0)");
    assert_eq!(
        select_similar(&nodes, &vec![], &vec![], None, None, false).unwrap_err(),
        "No reference nodes — pass node_ids or make a selection first"
    );
}

fn style_search() -> FindReplaceStyleArgs {
    FindReplaceStyleArgs {
        fill_color: None,
        stroke_color: None,
        stroke_width: None,
        font_family: None,
        new_fill_color: None,
        new_stroke_color: None,
        new_opacity: None,
        new_stroke_width: None,
        new_font_family: None,
        color_tolerance: None,
        node_ids: None,
        layer_id: None,
        dry_run: false,
    }
}

#[test]
fn texts_are_searched_for_every_kind_of_fill() {
    let red = color(1.0, 0.0, 0.0);
    let blue = color(0.0, 0.0, 1.0);
    let mut text = node(1, "T", NodeKind::Text);
    text.fill = Fill::Gradient(vec![blue, red]);
    text.font_family = "Inter".into();
    let nodes = vec![text];
    let mut args = style_search();
    args.fill_color = color_arg("#ff0000", Some(red));
    args.new_fill_color = color_arg("#0000ff", Some(blue));
    args.font_family = Some("inter".into());
    args.new_font_family = Some("Roboto".into());
    let plan = find_replace_style(&nodes, &args).unwrap();
    assert_eq!(
        plan.edits[0].changes,
        vec![Change::GradientStop { index: 1, from: red, to: blue }, Change::FontFamily]
    );
    assert_eq!(plan.edits[0].family, Some(("Inter".to_string(), "Roboto".to_string())));
}

fn color_arg(text: &str, color: Option<Color>) -> Option<ColorArg> {
    Some(ColorArg { text: text.into(), color })
}

#[test]
fn only_matching_styles_are_replaced() {
    let mut nodes = scene();
    nodes[3].fill = Fill::Solid(color(0.0, 0.0, 1.0));
    let mut args = style_search();
    args.fill_color = color_arg("#ff0000", Some(color(1.0, 0.0, 0.0)));
    args.new_fill_color = color_arg("#00ff00", Some(color(0.0, 1.0, 0.0)));
    let plan = find_replace_style(&nodes, &args).unwrap();
    assert!(plan.apply);
    assert!(plan.edits.iter().all(|e| e.position != 3));
    let change = Change::Fill { from: color(1.0, 0.0, 0.0), to: color(0.0, 1.0, 0.0) };
    assert!(plan.edits.iter().any(|e| e.position == 0 && e.changes == vec![change]));
    assert_eq!(plan.entries, 1);
    let made: Vec<_> = plan.edits.iter().map(|e| (e.position, e.changes.clone())).collect();
    args.dry_run = true;
    let plan = find_replace_style(&nodes, &args).unwrap();
    assert!(!plan.apply);
    assert_eq!(plan.entries, 0);
    let listed: Vec<_> = plan.edits.iter().map(|e| (e.position, e.changes.clone())).collect();
    assert_eq!(listed, made);
    assert!(plan.message.ends_with(" node(s) would be updated"));
    args.new_fill_color = None;
    assert!(find_replace_style(&nodes, &args)
        .unwrap_err()
        .starts_with("At least one replacement must be specified"));
    assert!(find_replace_style(&nodes, &style_search())
        .unwrap_err()
        .starts_with("At least one search criterion must be specified"));
    args.fill_color = color_arg("red!", None);
    assert_eq!(find_replace_style(&nodes, &args).unwrap_err(), "Invalid fill_color: 'red!'");
}

fn text_search(find: &str, replace: &str, regex: bool, case_sensitive: bool) -> FindReplaceTextArgs {
    FindReplaceTextArgs {
        find: find.into(),
        replace: replace.into(),
        regex,
        case_sensitive,
        node_ids: None,
        dry_run: false,
    }
}

#[test]
fn texts_are_searched_literally_or_by_a_pattern() {
    let nodes = scene();
    let plan = find_replace_text(&nodes, &text_search("hello", "Bye", false, false)).unwrap();
    assert_eq!(plan.edits.len(), 1);
    assert_eq!(plan.edits[0].position, 1);
    assert_eq!(plan.edits[0].content, "Bye world, Bye you");
    assert_eq!(plan.message, "Updated 1 text node(s).");
    let plan = find_replace_text(&nodes, &text_search("hello", "Bye", false, true)).unwrap();
    assert_eq!(plan.edits[0].content, "Hello world, Bye you");
    let plan = find_replace_text(&nodes, &text_search("(w)orld|y(ou)", "<$1$2>", true, true)).unwrap();
    assert_eq!(plan.edits[0].content, "Hello <w>, hello <ou>");
    // A dot is a dot where no pattern is meant.
    let plan = find_replace_text(&nodes, &text_search("h.llo", "x", false, false)).unwrap();
    assert!(plan.edits.is_empty() && !plan.apply);
    assert_eq!(plan.message, "No text nodes matched the search pattern.");
    let e = find_replace_text(&nodes, &text_search("(", "x", true, true)).unwrap_err();
    assert!(e.starts_with("Invalid regex: "), "{e}");
    let mut args = text_search("hello", "Bye", false, false);
    args.dry_run = true;
    assert!(!find_replace_text(&nodes, &args).unwrap().apply);
}

#[test]
fn alignments_have_words_and_unknown_words_mean_left() {
    for a in [TextAlign::Left, TextAlign::Center, TextAlign::Right] {
        assert_eq!(parse_align(align_name(a)), a);
    }
    assert_eq!(parse_align("justify"), TextAlign::Left);
}

fn text_request() -> TextRequest {
    TextRequest {
        content: "Hello".into(),
        name: None,
        family: None,
        size: None,
        weight: None,
        align: None,
        line_height: None,
        letter_spacing: None,
        x: double(3.0),
        y: double(-4.0),
        tags: vec!["a".into(), "b".into()],
        layer: Some(7),
        bad_fill: None,
        bad_stroke: None,
    }
}

fn fresh_lettering() -> Lettering {
    Lettering {
        family: "Sans".into(),
        size: double(24.0),
        weight: 400,
        align: TextAlign::Left,
        line_height: double(1.25),
        letter_spacing: double(0.0),
    }
}

#[test]
fn a_new_text_is_lettered_as_asked() {
    let t = create_text(&text_request(), &fresh_lettering(), 1).unwrap();
    assert_eq!((t.content.as_str(), t.name.as_str(), t.layer), ("Hello", "Text", Some(7)));
    assert_eq!((value(t.x), value(t.y)), (3.0, -4.0));
    assert_eq!(t.tags, ["a", "b"]);
    assert_eq!(t.message, "Created text 'Text' (id: 00000000-0000-0000-0000-000000000001)");
    let l = t.lettering;
    assert_eq!((l.family.as_str(), value(l.size), l.weight), ("Sans", 24.0, 400));
    assert_eq!((l.align, value(l.line_height), value(l.letter_spacing)), (TextAlign::Left, 1.25, 0.0));

    let mut args = text_request();
    args.name = Some("Title".into());
    args.family = Some("Serif".into());
    args.size = Some(double(12.0));
    args.weight = Some(700);
    args.align = Some("right".into());
    args.line_height = Some(double(2.0));
    args.letter_spacing = Some(double(0.5));
    let t = create_text(&args, &fresh_lettering(), 1).unwrap();
    assert_eq!(t.name, "Title");
    let l = t.lettering;
    assert_eq!((l.family.as_str(), value(l.size), l.weight), ("Serif", 12.0, 700));
    assert_eq!((l.align, value(l.line_height), value(l.letter_spacing)), (TextAlign::Right, 2.0, 0.5));

    args.bad_stroke = Some("no stroke".into());
    assert_eq!(create_text(&args, &fresh_lettering(), 1).unwrap_err(), "no stroke");
    args.bad_fill = Some("no fill".into());
    assert_eq!(create_text(&args, &fresh_lettering(), 1).unwrap_err(), "no fill");
}

#[test]
fn text_attributes_are_checked_before_they_change() {
    let nodes = scene();
    let title = "Title ÄÖ";
    assert_eq!(set_font_style(&nodes, title, "ITALIC").unwrap().value, FontStyle::Italic);
    assert_eq!(set_font_style(&nodes, title, "?").unwrap().value, FontStyle::Normal);
    assert_eq!(set_font_weight(&nodes, title, 7).unwrap().value, 100);
    assert_eq!(set_font_weight(&nodes, title, 5000).unwrap().value, 900);
    assert_eq!(set_font_weight(&nodes, "Box", 400).unwrap_err(), "Node 'Box' is not a text node.");
    assert_eq!(set_font_weight(&nodes, "?", 400).unwrap_err(), "Node '?' not found.");
    assert_eq!(set_text_decoration(&nodes, title, "Underline").unwrap().value, "underline");
    assert!(set_text_decoration(&nodes, title, "blink").unwrap_err().starts_with("Unknown decoration"));
    let script = Some(ScriptArg { text: "sub".into(), position: None });
    assert!(set_character_metrics(&nodes, title, None, &script)
        .unwrap_err()
        .starts_with("Unknown script_position 'sub'"));
    assert_eq!(
        set_character_metrics(&nodes, title, None, &None).unwrap_err(),
        "Nothing to change: provide baseline_shift and/or script_position."
    );
    assert_eq!(set_text_area(&nodes, title, "Box").unwrap().value, 1);
    assert_eq!(
        set_text_area(&nodes, title, title).unwrap_err(),
        "Text node and area path must be different nodes."
    );
    assert_eq!(set_text_area(&nodes, title, "Group").unwrap_err(), "Node 'Group' is not a path node.");
    assert_eq!(
        set_text_path(&nodes, title, "nowhere", double(0.5)).unwrap_err(),
        "Path node 'nowhere' not found."
    );
    assert!(set_text_direction(&nodes, title, true).unwrap().value);
    assert_eq!(
        clear_text_path(&nodes, title).unwrap_err(),
        "Text node 'Title ÄÖ' is not on a path."
    );
    assert_eq!(
        unbind_text_variable(&nodes, title).unwrap_err(),
        "Text node 'Title ÄÖ' does not have a variable binding."
    );
    let paragraph =
        set_paragraph_options(&nodes, title, Some(double(3.0)), None, None).unwrap().value;
    assert_eq!(value(paragraph.spacing_before), 3.0);
    let kept = set_paragraph_options(&nodes, title, None, None, None).unwrap().value;
    assert_eq!(kept.spacing_before, nodes[1].text.spacing_before);
    assert_eq!(
        clear_text_area(&nodes, title).unwrap_err(),
        "Text node 'Title ÄÖ' does not have an area path."
    );
    assert_eq!(
        bind_text_variable(&nodes, &names(&["price"]), title, "cost").unwrap_err(),
        "Variable 'cost' not found. Use define_variable first."
    );
    assert_eq!(
        bind_text_variable(&nodes, &names(&["price"]), title, "price").unwrap().value,
        "price"
    );
}

#[test]
fn tab_stops_come_in_order_and_once() {
    let stops: Vec<_> = [30.0, 10.0, 20.0, 10.0].iter().map(|x| double(*x)).collect();
    let ordered: Vec<f64> = ordered_stops(&stops).into_iter().map(value).collect();
    assert!(ordered.windows(2).all(|w| w[0] <= w[1]), "{ordered:?}");
    let nodes = scene();
    assert!(set_tab_stops(&nodes, "Title ÄÖ", &stops).is_ok());
    assert!(set_tab_stops(&nodes, "Title ÄÖ", &vec![]).unwrap_err().starts_with("stops must contain"));
}

#[test]
fn features_are_added_removed_and_replaced() {
    let mut nodes = scene();
    nodes[1].text.features = names(&["liga", "kern"]);
    let title = "Title ÄÖ";
    let add = set_opentype_features(&nodes, title, &names(&["smcp", "liga"]), "add").unwrap();
    assert_eq!(add.value, names(&["liga", "kern", "smcp"]));
    let gone = set_opentype_features(&nodes, title, &names(&["liga"]), "remove").unwrap();
    assert_eq!(gone.value, names(&["kern"]));
    let set = set_opentype_features(&nodes, title, &names(&["onum"]), "set").unwrap();
    assert_eq!(set.value, names(&["onum"]));
    assert_eq!(
        get_opentype_features(&nodes, title).unwrap().1,
        "Node 'Title ÄÖ' has 2 OpenType feature(s): liga, kern"
    );
}

#[test]
fn linked_frames_point_at_each_other_and_let_go_together() {
    let mut nodes = vec![
        node(1, "A", NodeKind::Text),
        node(2, "B", NodeKind::Text),
        node(3, "C", NodeKind::Text),
    ];
    let (edits, message) = link_text_frames(&nodes, "A", "B").unwrap();
    assert_eq!(message, "Linked text frames: 'A' → 'B'.");
    for e in edits {
        nodes[e.position].text.prev_frame = e.links.prev;
        nodes[e.position].text.next_frame = e.links.next;
    }
    assert_eq!(nodes[0].text.next_frame, Some(2));
    assert_eq!(nodes[1].text.prev_frame, Some(1));
    for e in link_text_frames(&nodes, "B", "C").unwrap().0 {
        nodes[e.position].text.prev_frame = e.links.prev;
        nodes[e.position].text.next_frame = e.links.next;
    }
    let (edits, _) = unlink_text_frames(&nodes, "B").unwrap();
    for e in edits {
        nodes[e.position].text.prev_frame = e.links.prev;
        nodes[e.position].text.next_frame = e.links.next;
    }
    assert_eq!(nodes[1].text.prev_frame, None);
    assert_eq!(nodes[1].text.next_frame, None);
    assert_eq!(link_text_frames(&nodes, "A", "A").unwrap_err(), "A text frame cannot be linked to itself.");
    let free = vec![node(1, "A", NodeKind::Text)];
    assert_eq!(unlink_text_frames(&free, "A").unwrap_err(), "Node 'A' is not part of a text thread.");
}

fn character(name: &str) -> CharacterStyle {
    CharacterStyle {
        name: name.into(),
        font_family: None,
        font_size: None,
        font_weight: Some(700),
        fill_hex: None,
        letter_spacing: None,
        line_height: None,
    }
}

#[test]
fn styles_are_saved_applied_and_deleted_by_name() {
    let nodes = scene();
    let kept = names(&["Body", "Title"]);
    let saved = create_character_style(&nodes, &kept, character("Title"), None, None).unwrap();
    assert_eq!(saved.over, Some(1));
    let saved = create_character_style(&nodes, &kept, character("New"), Some("Title ÄÖ"), None).unwrap();
    assert_eq!(saved.over, None);
    assert_eq!(saved.style.font_weight, Some(700));
    assert_eq!(saved.style.font_family.as_deref(), Some("Inter"));
    assert_eq!(
        create_character_style(&nodes, &kept, character("  "), None, None).unwrap_err(),
        "Style name must not be empty"
    );
    let paragraph = ParagraphStyle {
        name: "P".into(),
        align: None,
        line_height: None,
        letter_spacing: None,
        font_size: None,
        font_family: None,
    };
    let saved = create_paragraph_style(&nodes, &vec![], paragraph, Some("Title ÄÖ")).unwrap();
    assert_eq!(saved.style.align.as_deref(), Some("left"));
    let (left, message) = delete_character_style(&kept, "Body").unwrap();
    assert_eq!(left, vec![1]);
    assert_eq!(message, "Deleted character style 'Body'.");
    assert_eq!(
        delete_character_style(&kept, "None").unwrap_err(),
        "No character style named 'None' found."
    );
    let applied = apply_character_style(&nodes, &vec![1, 2], &vec![], &kept, "Title").unwrap();
    assert_eq!((applied.style, applied.positions), (1, vec![1]));
    assert_eq!(
        apply_character_style(&nodes, &vec![], &vec![], &kept, "Title").unwrap_err(),
        "No target nodes specified and no active selection."
    );
    assert_eq!(
        apply_character_style(&nodes, &vec![1], &vec![], &kept, "Title").unwrap_err(),
        "No text nodes found in the target set."
    );
    assert_eq!(
        apply_character_style(&nodes, &vec![1], &vec![], &kept, "Gone").unwrap_err(),
        "Character style 'Gone' not found."
    );
    let (left, message) = delete_paragraph_style(&kept, "Title").unwrap();
    assert_eq!((left, message.as_str()), (vec![0], "Deleted paragraph style 'Title'."));
    let applied = apply_paragraph_style(&nodes, &vec![], &names(&["Title ÄÖ"]), &kept, "Body");
    assert_eq!(applied.unwrap().positions, vec![1]);
    assert_eq!(
        apply_paragraph_style(&nodes, &vec![1], &vec![], &kept, "Gone").unwrap_err(),
        "Paragraph style 'Gone' not found."
    );
    assert_eq!(list_character_styles(0), "No character styles defined.");
    assert_eq!(list_paragraph_styles(2), "2 paragraph style(s).");
}
