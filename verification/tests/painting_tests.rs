use photonic_handlers::bezier::{Affine, Bounds, PathEl, Point};
use photonic_handlers::blend::{
    blend_objects, blend_step, clear_blend_spine, clear_symbol_overrides, expand_blend,
    reverse_blend_spine, set_blend_spine, set_symbol_override, BlendArgs, StepMode,
};
use photonic_handlers::double::Double;
use photonic_handlers::hatch::{
    count_side_lines, find_angles, find_line_width, find_spacing, hatch_fill, hatch_path, hatch_samples,
    hatch_segments, pixel_hex, place_dots,
    sample_color_at, stipple_fill, stipple_points, FillSource, HatchArgs, Hit, ShownLayer,
};
use photonic_handlers::layouts::Place;
use photonic_handlers::painting::{
    add_drop_shadow, blend_mode_named, copy_appearance, lower_ascii, name_of_blend, note_skipped,
    randomize_colors, remove_fill, remove_stroke, set_blend_mode, set_opacity, set_paint,
    style_transfer, swap_fill_stroke, AppearanceParts, BlendMode, RandomizeParts,
    ShadowSource,
};
use photonic_handlers::recolor::{
    adjust_colors, blend_colors, blend_two, convert_to_grayscale, get_recent_colors, invert_colors,
    invert_pixel, recolor_artwork, shift_color, shift_pixel, BlendOrder, PaletteColor,
};
use photonic_handlers::scene::{
    Color, ColorArg, Fill, Node, NodeKind, ScriptPosition, SymbolOverrides, TextAlign, TextState,
};

fn double(value: f64) -> Double {
    Double { bits: value.to_bits() }
}

fn value(d: Double) -> f64 {
    f64::from_bits(d.bits)
}

fn color(r: f64, g: f64, b: f64) -> Color {
    Color { r: double(r), g: double(g), b: double(b), a: double(1.0) }
}

fn bounds(x0: f64, y0: f64, x1: f64, y1: f64) -> Bounds {
    Bounds { x0: double(x0), y0: double(y0), x1: double(x1), y1: double(y1) }
}

fn node(id: u128, name: &str, kind: NodeKind) -> Node {
    Node {
        id,
        name: name.into(),
        layer: 1,
        kind,
        tags: vec![],
        visible: true,
        locked: false,
        opacity: double(1.0),
        blend_mode: 0,
        bounds: Some(bounds(0.0, 0.0, 10.0, 10.0)),
        transform: Affine {
            a: double(1.0),
            b: double(0.0),
            c: double(0.0),
            d: double(1.0),
            e: double(0.0),
            f: double(0.0),
        },
        children: vec![],
        fill_enabled: true,
        fill: Fill::Solid(color(1.0, 0.0, 0.0)),
        stroke_enabled: false,
        stroke_color: color(0.0, 0.0, 0.0),
        stroke_width: double(1.0),
        font_family: "Inter".into(),
        content: String::new(),
        text: TextState {
            font_size: double(16.0),
            font_weight: 400,
            letter_spacing: double(0.0),
            line_height: double(1.5),
            align: TextAlign::Left,
            baseline_shift: double(0.0),
            script_position: ScriptPosition::Normal,
            spacing_before: double(0.0),
            spacing_after: double(0.0),
            indent: double(0.0),
            area_path: None,
            path_spine: None,
            features: vec![],
            variable: None,
            prev_frame: None,
            next_frame: None,
        },
        blend_spine: None,
        symbol: None,
    }
}

fn names(list: &[&str]) -> Vec<String> {
    list.iter().map(|s| s.to_string()).collect()
}

fn scene() -> Vec<Node> {
    let mut b = node(2, "B", NodeKind::Path);
    b.stroke_enabled = true;
    b.stroke_color = color(0.0, 0.0, 1.0);
    let mut text = node(3, "T", NodeKind::Text);
    text.opacity = double(0.5);
    vec![node(1, "A", NodeKind::Path), b, text]
}

fn rgb(c: &Color) -> (f64, f64, f64) {
    (value(c.r), value(c.g), value(c.b))
}

#[test]
fn paint_goes_to_paths_and_the_rest_is_told() {
    let nodes = scene();
    let plan = set_paint(&nodes, &names(&["A", "T", "?"]), &None).unwrap();
    assert_eq!(plan.target, "fill");
    assert!(plan.applied >= 1);
    assert!(plan.message.starts_with("Applied fill paint to "));
    assert_eq!(set_paint(&nodes, &vec![], &None).unwrap_err(), "node_ids must not be empty.");
    assert!(set_paint(&nodes, &names(&["A"]), &Some("glow".into()))
        .unwrap_err()
        .starts_with("Invalid target"));
}

#[test]
fn styles_go_from_one_node_to_others() {
    let nodes = scene();
    let plan = style_transfer(&nodes, 2, &vec![1, 3, 9], &None).unwrap();
    assert_eq!(plan.source, 1);
    assert_eq!(plan.changes.len(), 2);
    let only = style_transfer(&nodes, 3, &vec![1], &Some(names(&["opacity"]))).unwrap();
    assert_eq!(only.changes[0].opacity.map(value), Some(0.5));
    assert!(!only.changes[0].fill && only.changes[0].blend_mode.is_none());
    assert_eq!(only.entries, 1);
    let mut mixed = scene();
    mixed[0].blend_mode = 5;
    let blend = style_transfer(&mixed, 1, &vec![2], &Some(names(&["blend_mode"]))).unwrap();
    assert_eq!((blend.changes[0].blend_mode, blend.changes[0].opacity), (Some(5), None));
    assert_eq!(
        style_transfer(&nodes, 1, &vec![], &None).unwrap_err(),
        "target_ids must contain at least one node ID"
    );
    assert_eq!(
        style_transfer(&nodes, 1, &vec![9], &None).unwrap_err(),
        "None of the target_ids were found in the document"
    );
    assert!(style_transfer(&nodes, 9, &vec![1], &None).unwrap_err().starts_with("Source node "));
    let parts = AppearanceParts { fill: true, stroke: false, opacity: true };
    let plan = copy_appearance(&nodes, "A", &names(&["B"]), parts).unwrap();
    assert_eq!(plan.changes[0].position, 1);
    assert_eq!(
        copy_appearance(&nodes, "?", &names(&["B"]), parts).unwrap_err(),
        "Source node '?' not found."
    );
    assert_eq!(
        copy_appearance(&nodes, "A", &vec![], parts).unwrap_err(),
        "No target nodes specified."
    );
}

#[test]
fn fills_and_strokes_are_removed_and_swapped() {
    let nodes = scene();
    assert_eq!(remove_fill(&nodes, &vec![1, 3, 9], &vec![]).message, "Removed fill from 2 node(s)");
    assert_eq!(remove_stroke(&nodes, &vec![2], &vec![]).positions, vec![1]);
    let bare = double(1.0);
    let plan = swap_fill_stroke(&nodes, &vec![2], &vec![], bare).unwrap();
    assert_eq!(plan.entries, 1);
    let s = plan.swaps[0];
    assert_eq!(s.fill.map(|c| rgb(&c)), Some((0.0, 0.0, 1.0)));
    assert_eq!(s.stroke.map(|k| rgb(&k.color)), Some((1.0, 0.0, 0.0)));
    // Swapping what came of a swap gives the first paint again.
    let mut again = scene();
    again[1].fill = Fill::Solid(s.fill.unwrap());
    again[1].stroke_color = s.stroke.unwrap().color;
    again[1].stroke_width = s.stroke.unwrap().width;
    let back = swap_fill_stroke(&again, &vec![2], &vec![], bare).unwrap().swaps[0];
    assert_eq!(back.fill.map(|c| rgb(&c)), Some((1.0, 0.0, 0.0)));
    assert_eq!(back.stroke.map(|k| rgb(&k.color)), Some((0.0, 0.0, 1.0)));
    // A node that is listed twice is swapped twice.
    let twice = swap_fill_stroke(&nodes, &vec![], &names(&["B", "A", "B"]), bare).unwrap();
    assert_eq!((twice.swaps.len(), twice.entries), (3, 3));
    assert_eq!((twice.swaps[0], twice.swaps[2]), (s, back));
    let odd = swap_fill_stroke(&nodes, &vec![], &names(&["A", "A"]), double(6.0)).unwrap();
    assert_eq!(odd.swaps[0].fill, None);
    assert_eq!(odd.swaps[1].fill, odd.swaps[0].stroke.map(|k| k.color));
    assert_eq!(odd.swaps[1].stroke, None);
    assert_eq!(
        swap_fill_stroke(&nodes, &vec![], &vec![], bare).unwrap_err(),
        "No nodes specified and nothing selected"
    );
}

#[test]
fn blend_modes_have_names() {
    assert_eq!(blend_mode_named("multiply"), Some(BlendMode::Multiply));
    assert_eq!(blend_mode_named("nope"), None);
    for m in [BlendMode::Normal, BlendMode::HardMix, BlendMode::LighterColor, BlendMode::Hue] {
        assert_eq!(blend_mode_named(name_of_blend(m)), Some(m));
    }
    let nodes = scene();
    let plan = set_blend_mode(&nodes, &vec![1], &vec![], "screen").unwrap();
    assert_eq!(plan.mode, BlendMode::Screen);
    assert_eq!(plan.message, "Set blend mode to 'screen' on 1 node(s)");
    assert_eq!(
        set_blend_mode(&nodes, &vec![1], &vec![], "nope").unwrap_err(),
        "Unknown blend mode: 'nope'"
    );
    assert_eq!(value(set_opacity(&nodes, &vec![1], &vec![], double(3.0)).unwrap().opacity), 1.0);
    assert_eq!(lower_ascii("ÄBC"), "Äbc");
    assert_eq!(note_skipped(0, " node(s) skipped"), "");
    assert_eq!(note_skipped(2, " node(s) skipped"), " — 2 node(s) skipped");
}

#[test]
fn shadows_and_random_colors_are_planned() {
    let nodes = scene();
    let plan =
        add_drop_shadow(&nodes, &names(&["A", "?"]), Some(double(3.0)), Some(double(4.0)), None, &None)
            .unwrap();
    assert_eq!(value(plan.opacity), f64::from(0.4_f32));
    assert_eq!(plan.color, color(0.0, 0.0, 0.0));
    let red = Some(ColorArg { text: "#f00".into(), color: Some(color(1.0, 0.0, 0.0)) });
    let tinted =
        add_drop_shadow(&nodes, &names(&["A"]), None, None, Some(double(0.5)), &red).unwrap();
    assert_eq!((value(tinted.opacity), tinted.color), (0.5, color(1.0, 0.0, 0.0)));
    assert_eq!(plan.shadows[0].name, "A Shadow");
    assert_eq!((value(plan.shadows[0].tx), value(plan.shadows[0].ty)), (3.0, 4.0));
    assert_eq!((plan.skipped, plan.entries), (1, 1));
    // The shadow of a shadow that the same call has made.
    let ten = Some(double(10.0));
    let chain = add_drop_shadow(&nodes, &names(&["A", "A Shadow", "B Shadow"]), ten, ten, None, &None);
    let chain = chain.unwrap();
    assert_eq!((chain.shadows.len(), chain.skipped), (2, 1));
    assert_eq!(chain.shadows[1].name, "A Shadow Shadow");
    assert_eq!(chain.shadows[0].source, ShadowSource::Node(0));
    assert_eq!(chain.shadows[1].source, ShadowSource::Shadow(0));
    let (one, two) = (value(chain.shadows[0].tx), value(chain.shadows[1].tx));
    assert_eq!(two, one + 10.0);
    assert_eq!(add_drop_shadow(&nodes, &names(&["?"]), None, None, None, &None).unwrap_err(),
        "No valid nodes found"
    );
    let parts = RandomizeParts { fill: true, stroke: true };
    let palette = vec![Some(color(1.0, 0.0, 0.0)), None, Some(color(0.0, 1.0, 0.0))];
    let draws: Vec<_> = (0..16).map(|i| double(i as f64 / 16.0)).collect();
    let plan =
        randomize_colors(&nodes, &vec![1, 2], &vec![], &palette, &draws, &draws, parts).unwrap();
    assert_eq!(plan.message, "Randomized colors on 2 node(s) from 2 palette colors");
    for p in &plan.paints {
        let c = p.fill.unwrap();
        assert!([(1.0, 0.0, 0.0), (0.0, 1.0, 0.0)].contains(&rgb(&c)));
    }
    assert_eq!(
        randomize_colors(&nodes, &vec![1], &vec![], &vec![None], &draws, &draws, parts).unwrap_err(),
        "No valid colors in palette"
    );
}

#[test]
fn colors_are_inverted_shifted_and_blended() {
    let nodes = scene();
    let plan = invert_colors(&nodes, &None);
    assert_eq!(plan.entries, 1);
    assert_eq!(invert_colors(&nodes, &Some(vec![])).entries, 0);
    let p = invert_pixel((double(0.0), double(0.25), double(1.0)));
    assert_eq!((value(p.0), value(p.1), value(p.2)), (1.0, 0.75, 0.0));
    assert_eq!(plan.positions, vec![0, 1]);
    assert_eq!(plan.message, "Inverted colors on 2 node(s).");
    assert_eq!(plan.checkpoint.as_deref(), Some("Invert colors (2 nodes)"));
    assert_eq!(
        convert_to_grayscale(&nodes, &Some(vec![3])).message,
        "Selected nodes contain no path nodes."
    );
    let by = Color { r: double(0.5), g: double(-0.5), b: double(0.0), a: double(0.0) };
    let c = shift_color(&color(0.75, 0.25, 0.5), &by);
    assert_eq!(rgb(&c), (1.0, 0.0, 0.5));
    let zero = Color { r: double(0.0), g: double(0.0), b: double(0.0), a: double(0.0) };
    assert_eq!(
        adjust_colors(&nodes, &None, &zero).message,
        "No channel deltas specified; nothing to adjust."
    );
    assert_eq!(adjust_colors(&nodes, &None, &zero).entries, 0);
    assert_eq!(adjust_colors(&nodes, &None, &by).entries, 1);
    assert_eq!(adjust_colors(&nodes, &None, &by).paths.len(), 2);
    assert_eq!(shift_pixel((10, 20, 30, 255), &zero), (10, 20, 30, 255));
    assert_eq!(get_recent_colors(&vec![color(0.0, 0.0, 0.0)]), "1 recent color(s)");
    let mid = blend_two(&color(0.0, 0.0, 0.0), &color(1.0, 0.5, 0.25), double(0.5));
    assert_eq!(rgb(&mid), (0.5, 0.25, 0.125));
}

fn blend_order(direction: Option<&str>) -> BlendOrder {
    BlendOrder {
        direction: direction.map(|s| s.to_string()),
        centers_x: vec![double(0.0), double(1.0), double(2.0)],
        centers_y: vec![double(0.0), double(1.0), double(2.0)],
        depth: vec![1, 2, 3],
    }
}

#[test]
fn colors_between_two_nodes_are_blended() {
    let mut nodes = vec![
        node(1, "A", NodeKind::Path),
        node(2, "B", NodeKind::Path),
        node(3, "C", NodeKind::Path),
    ];
    nodes[0].fill = Fill::Solid(color(0.0, 0.0, 0.0));
    nodes[2].fill = Fill::Solid(color(1.0, 0.5, 0.0));
    let plan = blend_colors(&nodes, &vec![1, 2, 3], &blend_order(None)).unwrap();
    assert_eq!(plan.colors.len(), 1);
    assert_eq!(plan.colors[0].position, 1);
    assert_eq!(rgb(&plan.colors[0].color), (0.5, 0.25, 0.0));
    let e = |ids: Vec<u128>, d: Option<&str>| {
        blend_colors(&nodes, &ids, &blend_order(d)).unwrap_err()
    };
    assert_eq!(e(vec![1], None), "blend_colors requires at least 2 node_ids");
    assert!(e(vec![1, 9], None).ends_with(" not found"));
    assert!(e(vec![1, 2, 3], Some("sideways")).starts_with("Unknown direction"));
    let text = vec![node(1, "A", NodeKind::Path), node(2, "T", NodeKind::Text)];
    let order = blend_order(None);
    assert_eq!(
        blend_colors(&text, &vec![1, 2], &order).unwrap_err(),
        "Node 'T' is not a path node"
    );
}

#[test]
fn fills_move_to_the_nearest_palette_color() {
    let nodes = vec![node(1, "A", NodeKind::Path)];
    let entry = |text: &str, color| PaletteColor { text: text.into(), color };
    let palette = vec![
        entry("#0000ff", Some(color(0.0, 0.0, 1.0))),
        entry("#cc0000", Some(color(0.75, 0.0, 0.0))),
    ];
    let plan = recolor_artwork(&nodes, &vec![1], &palette).unwrap();
    assert_eq!(rgb(&plan.colors[0].color), (0.75, 0.0, 0.0));
    assert_eq!(plan.message, "Recolored 1 node(s) to nearest palette colors");
    assert_eq!(
        recolor_artwork(&nodes, &vec![1], &vec![]).unwrap_err(),
        "palette must contain at least one color"
    );
    assert_eq!(
        recolor_artwork(&nodes, &vec![1], &vec![entry("x", None)]).unwrap_err(),
        "Invalid palette color: 'x'"
    );
}

#[test]
fn objects_are_blended_step_by_step() {
    let mut nodes = scene();
    nodes[1].fill = Fill::Solid(color(0.0, 1.0, 0.0));
    let args = BlendArgs { steps: Some(3), spacing: None, smooth_color: false };
    let plan = blend_objects(&nodes, "A", "B", (2, 2), &args).unwrap();
    assert_eq!((plan.a, plan.b, plan.steps, plan.mode), (0, 1, 3, StepMode::Steps));
    assert_eq!(plan.layer, nodes[0].layer);
    assert!(plan.message.starts_with("Created 3 blend steps between 'A' and 'B'"));
    let p = |x: f64| Point { x: double(x), y: double(0.0) };
    let a = vec![PathEl::MoveTo(p(0.0)), PathEl::LineTo(p(4.0))];
    let b = vec![PathEl::MoveTo(p(8.0)), PathEl::LineTo(p(12.0))];
    let step = blend_step(&nodes[0], &nodes[1], &a, &b, 2, 3);
    assert_eq!(step.path, vec![PathEl::MoveTo(p(4.0)), PathEl::LineTo(p(8.0))]);
    assert_eq!(step.name, "Blend 2/3");
    assert_eq!(step.color.map(|c| rgb(&c)), Some((0.5, 0.5, 0.0)));
    let e = |a: &str, b: &str, n| blend_objects(&nodes, a, b, n, &args).unwrap_err();
    assert_eq!(e("?", "B", (2, 2)), "Node A not found: ?");
    assert_eq!(e("A", "?", (2, 2)), "Node B not found: ?");
    assert_eq!(e("A", "T", (2, 2)), "Both nodes must be paths");
    assert!(e("A", "B", (2, 3)).starts_with("Path element counts differ (2 vs 3)"));
    let bad = BlendArgs { steps: None, spacing: Some(double(0.0)), smooth_color: false };
    assert_eq!(
        blend_objects(&nodes, "A", "B", (2, 2), &bad).unwrap_err(),
        "spacing must be positive"
    );
}

#[test]
fn spines_and_symbol_overrides_are_set_and_cleared() {
    let mut nodes = scene();
    let mut group = node(5, "G", NodeKind::Group);
    group.children = vec![1];
    nodes.push(group);
    let plan = set_blend_spine(&nodes, "G", "A").unwrap();
    assert_eq!(plan.spine, Some(1));
    assert_eq!(set_blend_spine(&nodes, "A", "B").unwrap_err(), "Node 'A' is not a group.");
    assert_eq!(set_blend_spine(&nodes, "G", "T").unwrap_err(), "Node 'T' is not a path node.");
    assert_eq!(
        reverse_blend_spine(&nodes, "G").unwrap_err(),
        "Group 'G' has no blend spine assigned."
    );
    assert_eq!(clear_blend_spine(&nodes, "G").unwrap().0, None);
    nodes[3].blend_spine = Some(1);
    assert_eq!(reverse_blend_spine(&nodes, "G").unwrap().0, 0);
    assert_eq!(clear_blend_spine(&nodes, "G").unwrap().0, Some(3));
    assert_eq!(
        expand_blend(&nodes, "G", None).unwrap_err(),
        "Blend group has no layer position."
    );
    assert_eq!(expand_blend(&nodes, "G", Some(Place { layer: 1, index: 0 })).unwrap().group, 3);
    assert_eq!(
        set_symbol_override(&nodes, "A", Some("#fff"), None).unwrap_err(),
        "Node 'A' is not a symbol instance."
    );
    nodes[0].symbol = Some(SymbolOverrides { fill: None, stroke: Some("#000".into()) });
    let o = set_symbol_override(&nodes, "A", Some("#fff"), None).unwrap().overrides;
    assert_eq!(o.fill.as_deref(), Some("#fff"));
    assert_eq!(clear_symbol_overrides(&nodes, "A").unwrap().0, Some(0));
    assert_eq!(clear_symbol_overrides(&nodes, "?").unwrap_err(), "Node '?' not found.");
}

#[test]
fn hatching_keeps_the_runs_inside() {
    let args = HatchArgs { spacing: None, angle: None, cross_angle: Some(double(90.0)) };
    assert!(value(find_spacing(&args)) > 0.0);
    assert_eq!(find_angles(&args).len(), 2);
    let nodes = scene();
    let area = bounds(0.0, 0.0, 3.0, 4.0);
    let pair = names(&["A", "T"]);
    let start = hatch_fill(&nodes, &pair, &None, &vec![]).unwrap();
    let next = start.next.unwrap();
    assert_eq!((next.name.as_str(), next.source), ("A Hatch", FillSource::Node(0)));
    assert_eq!((next.layer, start.paths.len()), (nodes[0].layer, 0));
    let after = hatch_fill(&nodes, &pair, &None, &vec![Some(area)]).unwrap();
    assert!(after.next.is_none());
    let done = hatch_fill(&nodes, &pair, &None, &vec![Some(area), None]).unwrap();
    assert_eq!((done.paths.len(), done.skipped, done.entries), (1, 1, 1));
    assert_eq!(done.paths[0].name, "A Hatch");
    // Where nothing is drawn, the name is passed over.
    let empty = hatch_fill(&nodes, &pair, &None, &vec![None, None]).unwrap();
    assert_eq!((empty.paths.len(), empty.skipped), (0, 2));
    // What the same call has drawn can be named.
    let chain = names(&["A", "A Hatch"]);
    let over = hatch_fill(&nodes, &chain, &None, &vec![Some(area)]).unwrap().next.unwrap();
    assert_eq!((over.source, over.name.as_str()), (FillSource::Drawn(0), "A Hatch Hatch"));
    assert_eq!((over.bounds, over.color), (area, color(0.0, 0.0, 0.0)));
    assert!(hatch_fill(&nodes, &chain, &None, &vec![None]).unwrap().next.is_none());
    let dots = names(&["A", "A Stipple"]);
    let over = stipple_fill(&nodes, &dots, &None, &vec![Some(area)]).unwrap().next.unwrap();
    assert_eq!(over.name, "A Stipple Stipple");
    assert!(matches!(&nodes[0].fill, Fill::Solid(c) if *c == over.color));
    assert_eq!(
        hatch_fill(&nodes, &vec![], &None, &vec![]).unwrap_err(),
        "node_ids must not be empty"
    );
    let red = Some(ColorArg { text: "#f00".into(), color: Some(color(1.0, 0.0, 0.0)) });
    let bad = Some(ColorArg { text: "?".into(), color: None });
    let drawn = |c| hatch_fill(&nodes, &pair, c, &vec![]).unwrap().next.unwrap().color;
    assert_eq!((drawn(&red), drawn(&bad)), (color(1.0, 0.0, 0.0), color(0.0, 0.0, 0.0)));
    assert_eq!(value(find_line_width(None)), 1.0);
    let p = |x: f64| Point { x: double(x), y: double(0.0) };
    let samples = hatch_samples(p(0.0), p(10.0));
    assert_eq!(samples[0], p(0.0));
    let none = vec![false; samples.len()];
    assert!(hatch_segments(p(0.0), p(10.0), &none).is_empty());
    let all = vec![true; samples.len()];
    let line = hatch_segments(p(0.0), p(10.0), &all);
    assert_eq!(line, vec![PathEl::MoveTo(p(0.0)), PathEl::LineTo(p(10.0))]);
    let n = count_side_lines(&area, double(2.5)) as usize;
    assert_eq!(n, 3);
    let mut lines = vec![none.clone(); 2 * n + 1];
    lines[n] = all.clone();
    lines[n + 1] = all;
    let hatch =
        hatch_path(&area, double(2.5), &vec![(double(1.0), double(0.0))], &vec![lines]);
    let at = |x: f64, y: f64| Point { x: double(x), y: double(y) };
    assert_eq!(
        hatch,
        vec![
            PathEl::MoveTo(at(-3.5, 2.0)),
            PathEl::LineTo(at(6.5, 2.0)),
            PathEl::MoveTo(at(-3.5, 4.5)),
            PathEl::LineTo(at(6.5, 4.5)),
        ]
    );
    let dots = stipple_points(
        &bounds(0.0, 0.0, 10.0, 20.0),
        &vec![(double(0.0), double(-0.5)), (double(-1.0), double(1.0))],
    );
    assert_eq!(dots[0], Point { x: double(5.0), y: double(5.0) });
    assert_eq!(place_dots(&dots, &vec![false, true], 5), vec![dots[1]]);
    assert_eq!(place_dots(&dots, &vec![true, true], 1), vec![dots[0]]);
}

#[test]
fn the_topmost_visible_hit_gives_the_color() {
    let nodes = scene();
    let hits = vec![Hit::Inside, Hit::Inside, Hit::Miss];
    let layers = vec![ShownLayer { visible: true, node_ids: vec![1, 2, 3] }];
    assert_eq!(sample_color_at(&nodes, &hits, &layers), Some(1));
    let hidden = vec![ShownLayer { visible: false, node_ids: vec![1, 2, 3] }];
    assert_eq!(sample_color_at(&nodes, &hits, &hidden), None);
    assert_eq!(pixel_hex(255, 0, 16), "#FF0010");
}
