use photonic_handlers::bezier::{apply_round_corners, Affine, Bounds, PathEl, Point};
use photonic_handlers::double::Double;
use photonic_handlers::outlines::{
    arc_angles, count_teeth, create_arrow_shape, create_cross, create_donut, create_gear,
    create_heart, create_speech_bubble, create_sunburst, create_wave_pattern, drawn_wedges,
    gear_angles, open_ring, polyline, smooth_line, sunburst_outline, wave_phases, wedge_angles,
    ArrowArgs, BubbleArgs, Direction, DonutArgs, Gear, WaveArgs,
};
use photonic_handlers::parametric::{
    count_points, create_parametric_shape, find_curve_angles, find_superellipse_power, shape_name,
    CurveArgs, CurveValues, ParametricShapeType,
};
use photonic_handlers::path_edits::{
    delete_anchor_point, find_cut, find_place, invert, join_paths, measure_path, point_on_path,
    proportional_move_anchor, remove_elements, scissors_cut, simplify_path, total_length, JoinPlan,
};
use photonic_handlers::path_tools::{
    add_anchor_points, average_anchor_points, bloats, convert_anchor_points, crystallize_path,
    join_style, noise_angles, noise_deform, noise_point, offset_path, outline_stroke, pucker_bloat,
    reverse_path_direction, roughen_path, round_corners, scallop_path, smooth_path, twirl_path,
    warp_envelope, zig_zag_path, ConvertAnchorMode, JoinStyle, NoiseArgs,
};
use photonic_handlers::figures::{find_layer, place_figure, Figure, FigurePaint};
use photonic_handlers::scene::{
    Color, ColorArg, Fill, Node, NodeKind, ScriptPosition, TextAlign, TextState,
};
use photonic_handlers::shapes::{
    build_shape_from_points, create_curvature_path, create_flare, create_freehand_path, create_grid,
    create_path, create_polar_grid, create_qr_code, create_shape, create_spiral, flare_ray,
    name_point_shape, name_shape, qr_background, qr_options, ray_angles, shape_color, BasicShape, FlareArgs,
    QrArgs, QrArt, QrBackground, ReadPath, ShapeArgs, ShapeType,
};
use photonic_handlers::tiling::{create_truchet_tiling, TilePaint, TileStyle, TilingArgs};

fn double(value: f64) -> Double {
    Double { bits: value.to_bits() }
}

fn value(d: Double) -> f64 {
    f64::from_bits(d.bits)
}

fn color(r: f64, g: f64, b: f64) -> Color {
    Color { r: double(r), g: double(g), b: double(b), a: double(1.0) }
}

fn bounds(x0: f64, y0: f64, x1: f64, y1: f64) -> Bounds {
    Bounds { x0: double(x0), y0: double(y0), x1: double(x1), y1: double(y1) }
}

fn node(id: u128, name: &str, kind: NodeKind) -> Node {
    Node {
        id,
        name: name.into(),
        layer: 1,
        kind,
        tags: vec![],
        visible: true,
        locked: false,
        opacity: double(1.0),
        blend_mode: 0,
        bounds: Some(bounds(0.0, 0.0, 10.0, 10.0)),
        transform: Affine {
            a: double(1.0),
            b: double(0.0),
            c: double(0.0),
            d: double(1.0),
            e: double(0.0),
            f: double(0.0),
        },
        children: vec![],
        fill_enabled: true,
        fill: Fill::Solid(color(1.0, 0.0, 0.0)),
        stroke_enabled: false,
        stroke_color: color(0.0, 0.0, 0.0),
        stroke_width: double(1.0),
        font_family: "Inter".into(),
        content: String::new(),
        text: TextState {
            font_size: double(16.0),
            font_weight: 400,
            letter_spacing: double(0.0),
            line_height: double(1.5),
            align: TextAlign::Left,
            baseline_shift: double(0.0),
            script_position: ScriptPosition::Normal,
            spacing_before: double(0.0),
            spacing_after: double(0.0),
            indent: double(0.0),
            area_path: None,
            path_spine: None,
            features: vec![],
            variable: None,
            prev_frame: None,
            next_frame: None,
        },
        blend_spine: None,
        symbol: None,
    }
}

fn names(list: &[&str]) -> Vec<String> {
    list.iter().map(|s| s.to_string()).collect()
}

fn point(x: f64, y: f64) -> Point {
    Point { x: double(x), y: double(y) }
}

fn end(el: &PathEl) -> Option<(f64, f64)> {
    match el {
        PathEl::MoveTo(p) | PathEl::LineTo(p) => Some((value(p.x), value(p.y))),
        PathEl::QuadTo(_, p) | PathEl::CurveTo(_, _, p) => Some((value(p.x), value(p.y))),
        PathEl::ClosePath => None,
    }
}

fn direction(angle: Double) -> Direction {
    let a = value(angle);
    Direction { cosine: double(a.cos()), sine: double(a.sin()) }
}

#[test]
fn a_gear_has_five_points_for_every_tooth() {
    assert_eq!(count_teeth(None), 12);
    assert_eq!(count_teeth(Some(1)), 3);
    let teeth = 7;
    let angles = gear_angles(teeth);
    let tooth = std::f64::consts::TAU / teeth as f64;
    let gap = 1.0 - 0.4;
    let g = Gear {
        cx: double(3.0),
        cy: double(-2.0),
        outer: double(50.0),
        inner: double(40.0),
        teeth,
    };
    let path = create_gear(&g, &angles.iter().map(|a| direction(*a)).collect());
    assert_eq!(path.len(), 5 * teeth + 1);
    for i in 0..teeth {
        let base = tooth * i as f64;
        let expected = [
            (40.0, base),
            (40.0, base + tooth * gap * 0.5),
            (50.0, base + tooth * (gap * 0.5 + 0.4 * 0.25)),
            (50.0, base + tooth * (1.0 - gap * 0.5 - 0.4 * 0.25)),
            (40.0, base + tooth * (1.0 - gap * 0.5)),
        ];
        for (j, (r, a)) in expected.iter().enumerate() {
            let k = i * 5 + j;
            assert_eq!(value(angles[k]), *a, "{k}");
            assert_eq!(end(&path[k]), Some((3.0 + r * a.cos(), -2.0 + r * a.sin())), "{k}");
        }
    }
}

#[test]
fn crosses_and_hearts_have_their_outlines() {
    let straight = Direction { cosine: double(1.0), sine: double(0.0) };
    let cross = create_cross(
        double(10.0),
        double(10.0),
        Some(double(8.0)),
        Some(double(2.0)),
        straight,
    );
    assert_eq!(cross.len(), 13);
    assert_eq!(end(&cross[0]), Some((9.0, 6.0)));
    assert_eq!(end(&cross[4]), Some((14.0, 11.0)));
    assert_eq!(cross[12], PathEl::ClosePath);
    let heart = create_heart(double(0.0), double(0.0), Some(double(20.0)));
    assert_eq!(heart[0], PathEl::MoveTo(point(0.0, 0.0)));
    assert_eq!(end(&heart[1]), Some((-10.0, -12.0)));
    assert_eq!(end(&heart[2]), Some((0.0, -14.0)));
    assert_eq!(*heart.last().unwrap(), PathEl::ClosePath);
}

#[test]
fn a_wave_passes_through_its_sines() {
    let args = WaveArgs {
        x: double(1.0),
        y: double(2.0),
        width: double(100.0),
        height: double(40.0),
        lines: Some(2),
        wavelength: Some(double(50.0)),
        amplitude: Some(double(5.0)),
    };
    let phases = wave_phases(&args);
    let total = (100.0 / 50.0 * 20.0) as usize + 1;
    assert_eq!(phases.len(), total + 1);
    let sines = phases.iter().map(|p| double(value(*p).sin())).collect();
    let path = create_wave_pattern(&args, 1, &sines);
    for (i, el) in path.iter().enumerate() {
        let t = i as f64 / total as f64;
        let phase = t * 100.0 / 50.0 * std::f64::consts::TAU;
        let expected = (1.0 + t * 100.0, 2.0 + 20.0 * 1.5 + 5.0 * phase.sin());
        assert_eq!(end(el), Some(expected), "{i}");
    }
}

fn curve(shape_type: ParametricShapeType) -> CurveArgs {
    CurveArgs {
        shape_type,
        cx: double(5.0),
        cy: double(6.0),
        radius: Some(double(50.0)),
        points: Some(12),
        ratio_x: None,
        ratio_y: None,
        freq_a: None,
        freq_b: None,
        delta_deg: None,
        exponent: None,
        petals: None,
        inner_ratio: None,
        pen_ratio: None,
    }
}

fn drawn(args: &CurveArgs) -> Vec<PathEl> {
    let values = (0..count_points(args))
        .map(|i| {
            let (a, b) = find_curve_angles(args, i);
            let (a, b) = (value(a), value(b));
            CurveValues {
                cosine: double(a.cos()),
                sine: double(a.sin()),
                second_cosine: double(b.cos()),
                second_sine: double(b.sin()),
            }
        })
        .collect();
    create_parametric_shape(args, &values)
}

#[test]
fn curves_follow_their_equations() {
    let tau = std::f64::consts::TAU;
    let path = drawn(&curve(ParametricShapeType::Lissajous));
    assert_eq!(path.len(), 13);
    for i in 0..12 {
        let t = i as f64 / 12.0 * tau;
        let x = 5.0 + 50.0 * (3.0 * t + 90.0_f64.to_radians()).sin();
        let y = 6.0 + 50.0 * (2.0 * t).sin();
        assert_eq!(end(&path[i]), Some((x, y)), "{i}");
    }
    let path = drawn(&curve(ParametricShapeType::Epicycloid));
    let big = 50.0 / (1.0 + 0.3);
    let r = big * 0.3;
    for i in 0..12 {
        let t = i as f64 / 12.0 * tau * 3.0;
        let x = (big + r) * t.cos() - r * ((big + r) / r * t).cos();
        let y = (big + r) * t.sin() - r * ((big + r) / r * t).sin();
        assert_eq!(end(&path[i]), Some((5.0 + x, 6.0 + y)), "{i}");
    }
    let path = drawn(&curve(ParametricShapeType::Hypotrochoid));
    let big = 50.0 / (1.0 + 0.4 * 1.0 + 0.4);
    let r = big * 0.4;
    for i in 0..12 {
        let t = i as f64 / 12.0 * tau * 0.4_f64.recip().ceil();
        let x = (big - r) * t.cos() + r * ((big - r) / r * t).cos();
        let y = (big - r) * t.sin() - r * ((big - r) / r * t).sin();
        assert_eq!(end(&path[i]), Some((5.0 + x, 6.0 + y)), "{i}");
    }
    let path = drawn(&curve(ParametricShapeType::Rose));
    for i in 0..12 {
        let t = i as f64 / 12.0 * std::f64::consts::PI;
        let r = 50.0 * (5.0 * t).cos();
        assert_eq!(end(&path[i]), Some((5.0 + r * t.cos(), 6.0 + r * t.sin())), "{i}");
    }
}

#[test]
fn tiles_lie_by_the_pseudo_random_numbers() {
    let args = TilingArgs {
        x: double(0.0),
        y: double(0.0),
        width: Some(double(80.0)),
        height: Some(double(50.0)),
        tile_size: Some(double(20.0)),
        seed: Some(7),
        style: Some("diagonals".into()),
        stroke_width: Some(double(0.0)),
        color: Some(ColorArg { text: "red".into(), color: None }),
        background: None,
        layer_id: None,
    };
    let t = create_truchet_tiling(&args, Some(9));
    let dark = Color {
        r: double(f64::from(0.10_f32)),
        g: double(f64::from(0.10_f32)),
        b: double(f64::from(0.18_f32)),
        a: double(1.0),
    };
    assert_eq!(t.paint, TilePaint::Stroked { color: dark, width: double(0.1) });
    assert!(t.background.is_none());
    assert_eq!(t.layer, 9);
    let white = color(1.0, 1.0, 1.0);
    let filled = TilingArgs {
        style: Some("triangles".into()),
        color: Some(ColorArg { text: "#fff".into(), color: Some(white) }),
        background: Some(ColorArg { text: "#000".into(), color: Some(dark) }),
        layer_id: Some("00000000-0000-0000-0000-000000000007".into()),
        ..args
    };
    let f = create_truchet_tiling(&filled, Some(9));
    assert_eq!(f.paint, TilePaint::Filled(white));
    assert_eq!(f.layer, 7);
    let behind = f.background.unwrap();
    assert_eq!((behind.color, behind.path.len()), (dark, 5));
    assert_eq!(behind.name, "background");
    assert_eq!((f.group.as_str(), f.group_index), ("Truchet Tiling", 0));
    assert_eq!((t.cols, t.rows, t.style), (4, 3, TileStyle::Diagonals));
    assert_eq!(t.tiles.len(), 12);
    assert_eq!(t.message, "Created Truchet tiling: 4×3 tiles");
    let step = |s: u64| s.wrapping_mul(6364136223846793005).wrapping_add(1442695040888963407);
    let mut state = step(7);
    let mut flips = Vec::new();
    for _ in 0..12 {
        state = step(state);
        flips.push((state >> 33) & 1 == 0);
    }
    let origin = |i: usize| ((i % 4) as f64 * 20.0, (i / 4) as f64 * 20.0);
    let relative = |i: usize| {
        let (x, y) = origin(i);
        t.tiles[i].path.iter().map(|el| end(el).map(|p| (p.0 - x, p.1 - y))).collect::<Vec<_>>()
    };
    let first = relative(0);
    for i in 1..12 {
        assert_eq!(relative(i) == first, flips[i] == flips[0], "{i}");
    }
}

#[test]
fn basic_shapes_are_centred_in_their_boxes() {
    let args = |shape_type| ShapeArgs {
        shape_type,
        x: double(10.0),
        y: double(20.0),
        width: double(40.0),
        height: double(60.0),
        corner_radius: None,
        sides: None,
        inner_radius: None,
        arc_start_angle: None,
        arc_end_angle: None,
        arc_open: None,
    };
    match create_shape(&args(ShapeType::Ellipse)) {
        BasicShape::Ellipse { cx, cy, rx, ry } => {
            assert_eq!((value(cx), value(cy), value(rx), value(ry)), (30.0, 50.0, 20.0, 30.0))
        }
        other => panic!("{other:?}"),
    }
    match create_shape(&args(ShapeType::Line)) {
        BasicShape::Line { x0, y0, x1, y1 } => {
            assert_eq!((value(x0), value(y0), value(x1), value(y1)), (10.0, 20.0, 50.0, 80.0))
        }
        other => panic!("{other:?}"),
    }
    let n = name_shape(ShapeType::Rectangle, None, 1);
    assert!(n.message.starts_with("Created rectangle '"), "{}", n.message);
    assert_eq!(name_shape(ShapeType::Star, Some("Sun"), 1).name, "Sun");
    let bad = Some(ColorArg { text: "red".into(), color: None });
    assert_eq!(shape_color(false, &bad).unwrap_err(), "Invalid color 'red' (expected #rrggbb)");
}

const ID_1: &str = "00000000-0000-0000-0000-000000000001";
const ID_7: &str = "00000000-0000-0000-0000-000000000007";

#[test]
fn shapes_are_refused_for_their_reasons() {
    assert_eq!(
        create_path(&ReadPath::Empty, None, 1).unwrap_err(),
        "Invalid SVG path data: path contains no drawable segments"
    );
    assert_eq!(
        create_path(&ReadPath::Invalid("x".into()), None, 1).unwrap_err(),
        "Invalid SVG path data: x"
    );
    assert_eq!(create_path(&ReadPath::Drawable, None, 1).unwrap().name, "Path");
    assert_eq!(create_curvature_path(1, &None, 1).unwrap_err(), "At least 2 points are required");
    let curve = create_curvature_path(2, &Some(ID_7.into()), 1).unwrap();
    assert_eq!((curve.name.as_str(), curve.layer), ("Curvature Path", Some(7)));
    assert_eq!(curve.message, format!("Created smooth curve through 2 points (id: {ID_1})"));
    assert_eq!(create_curvature_path(2, &Some("x".into()), 1).unwrap().layer, None);
    assert_eq!(
        create_spiral(double(0.0), double(1.0), 8, 99, None).unwrap_err(),
        "outer_radius must be greater than 0"
    );
    assert_eq!(
        create_spiral(double(1.0), double(f64::NAN), 8, 99, None).unwrap_err(),
        "turns must be a finite number greater than 0"
    );
    assert!(create_spiral(double(1.0), double(100.0), 8, 99, None)
        .unwrap_err()
        .starts_with("create_spiral may generate at most 99"));
    assert_eq!(create_spiral(double(1.0), double(3.0), 8, 99, None).unwrap(), "Spiral");
    let polar = create_polar_grid(double(9.0), None, Some(3), Some(4), None).unwrap();
    assert_eq!((polar.rings, polar.sectors), (3, 4));
    assert!(create_polar_grid(double(0.0), None, None, None, None).is_err());
    let grid = create_grid(double(9.0), double(9.0), Some(0), Some(2), None).unwrap();
    assert_eq!((grid.cols, grid.rows), (1, 2));
    assert_eq!(
        create_grid(double(0.0), double(9.0), None, None, None).unwrap_err(),
        "width and height must be greater than 0"
    );
    let mut args = QrArgs {
        data: "hi".into(),
        shape_known: false,
        ecc_known: false,
        radius: None,
        size: None,
        quiet_zone: None,
        x: Some(double(3.0)),
        y: None,
        fill_error: Some("bad fill".into()),
        background: Some(ColorArg { text: "?".into(), color: None }),
        layer_id: None,
    };
    let art = QrArt { side: double(200.0), modules: 21 };
    let refused = |args: &QrArgs, art| create_qr_code(args, art, "Square", None).unwrap_err();
    assert_eq!(
        refused(&args, Err("no room".into())),
        "module_shape must be square, rounded, dot, or connected"
    );
    args.shape_known = true;
    assert_eq!(refused(&args, Err("no room".into())), "ecc must be l, m, q, or h");
    args.ecc_known = true;
    assert_eq!(refused(&args, Err("no room".into())), "no room");
    assert_eq!(refused(&args, Ok(art)), "bad fill");
    args.fill_error = None;
    assert_eq!(
        refused(&args, Ok(art)),
        "Invalid background '?' (expected #rrggbb or 'none')"
    );
    args.background = None;
    let options = qr_options(&args).unwrap();
    assert_eq!((value(options.radius), value(options.size)), (0.4, 200.0));
    assert_eq!(options.quiet_zone, 4);
    let plan = create_qr_code(&args, Ok(art), "Square", Some(5)).unwrap();
    assert_eq!((plan.layer, plan.entries, plan.group_index), (5, 1, usize::MAX));
    assert_eq!(plan.children, vec!["QR Background", "QR Modules"]);
    assert_eq!((value(plan.x), value(plan.y), value(plan.side)), (3.0, 0.0, 200.0));
    assert_eq!(plan.message, "Created QR code — 21×21 modules, Square style, encoding: hi");
    args.background = Some(ColorArg { text: "NONE".into(), color: None });
    args.layer_id = Some(ID_7.into());
    let plan = create_qr_code(&args, Ok(art), "Square", Some(5)).unwrap();
    assert_eq!(plan.layer, 7);
    assert_eq!(plan.children, vec!["QR Modules"]);
    assert_eq!(plan.name, "QR Code");
    assert_eq!(qr_background(&None).unwrap(), QrBackground::White);
    assert!(qr_background(&Some(ColorArg { text: "?".into(), color: None }))
        .unwrap_err()
        .starts_with("Invalid background '?'"));
}

#[test]
fn points_are_connected_in_the_given_order() {
    let points = vec![point(0.0, 0.0), point(1.0, 0.0), point(1.0, 1.0)];
    let path = build_shape_from_points(&points, &Some(vec![2, 0]), true).unwrap();
    assert_eq!(
        path,
        vec![PathEl::MoveTo(points[2]), PathEl::LineTo(points[0]), PathEl::ClosePath]
    );
    let e = |order: Option<Vec<usize>>| build_shape_from_points(&points, &order, false).unwrap_err();
    assert_eq!(e(Some(vec![])), "connection_order must contain at least one index");
    assert_eq!(e(Some(vec![0, 3])), "connection_order index 3 is out of bounds (have 3 points)");
    assert_eq!(
        build_shape_from_points(&vec![points[0]], &None, false).unwrap_err(),
        "At least 2 points are required"
    );
    let (line, named) = create_freehand_path(&points, None, 1).unwrap();
    assert_eq!(line.len(), 3);
    assert_eq!(named.name, "Pencil");
    assert!(create_freehand_path(&vec![], None, 1).is_err());
}

#[test]
fn figures_have_names_layers_and_paints() {
    let place = |figure, fill, stroke, color| {
        place_figure(figure, fill, stroke, color, &None, Some(4))
    };
    let parts = |c: Color| [c.r, c.g, c.b, c.a].map(value);
    let wide = |v: [f32; 4]| v.map(f64::from);
    let heart = place(Figure::Heart, false, false, None);
    assert_eq!((heart.name.as_str(), heart.layer), ("Heart", 4));
    assert!(
        matches!(heart.paint, FigurePaint::Filled(c) if parts(c) == wide([0.9, 0.1, 0.2, 1.0]))
    );
    assert_eq!(place(Figure::Heart, false, true, None).paint, FigurePaint::Given);
    let bubble = place(Figure::SpeechBubble, false, false, None);
    let expected = FigurePaint::Outlined {
        fill: color(1.0, 1.0, 1.0),
        stroke: color(0.0, 0.0, 0.0),
        width: double(2.0),
    };
    assert_eq!((bubble.name.as_str(), bubble.paint), ("Speech Bubble", expected));
    let red = color(1.0, 0.0, 0.0);
    assert_eq!(place(Figure::Sunburst, true, true, Some(red)).paint, FigurePaint::Filled(red));
    assert!(
        matches!(place(Figure::Sunburst, false, false, None).paint, FigurePaint::Filled(c) if parts(c) == wide([1.0, 0.84, 0.0, 1.0]))
    );
    assert!(
        matches!(place(Figure::WavePattern, true, false, None).paint, FigurePaint::Stroked { color, width } if parts(color) == wide([0.2, 0.4, 0.8, 1.0]) && value(width) == 1.5)
    );
    assert_eq!(place(Figure::WavePattern, true, true, None).paint, FigurePaint::GivenStroke);
    let rose = Figure::Curve(ParametricShapeType::Rose);
    assert_eq!(place(rose, true, true, None).name, "Rose Curve");
    let id = Some("00000000-0000-0000-0000-00000000002a".to_string());
    assert_eq!(place_figure(Figure::Gear, false, false, None, &id, Some(4)).layer, 42);
    assert_eq!(find_layer(&Some("?".into()), None), 0);
}

#[test]
fn a_flare_has_rays_and_rings_within_the_limit() {
    let args = FlareArgs {
        cx: double(10.0),
        cy: double(20.0),
        halo_radius: Some(double(30.0)),
        ray_count: Some(8),
        ray_length: Some(double(40.0)),
        ring_count: Some(2),
        ray_opacity: None,
        halo_color: None,
    };
    let f = create_flare(&args, 12, &None, Some(5)).unwrap();
    assert_eq!((f.rays, f.rings.len()), (8, 2));
    assert_eq!((f.layer, f.group.as_str(), f.group_index, f.entries), (5, "Lens Flare", 0, 12));
    assert_eq!(f.names.len(), 11);
    assert_eq!(f.names[..2], names(&["Flare Halo", "Flare Ray 1"]));
    assert_eq!(f.names[8..], names(&["Flare Ray 8", "Flare Ring 1", "Flare Ring 2"]));
    assert_eq!(value(f.rings[0].radius), 45.0);
    assert_eq!(value(f.rings[1].color.a), (0.15_f32 / 2.0) as f64);
    assert_eq!(value(f.rings[1].width), 1.5);
    let parts = |c: Color| [c.r, c.g, c.b, c.a].map(value);
    let wide = |v: [f32; 4]| v.map(f64::from);
    assert_eq!(parts(f.halo_color), wide([1.0, 0.98, 0.9, 0.6]));
    assert_eq!(parts(f.ray_color), wide([1.0, 0.98, 0.9, 0.3]));
    let blue = FlareArgs {
        halo_color: Some(color(0.0, 0.0, 1.0)),
        ray_opacity: Some(double(0.5)),
        ..args
    };
    let b = create_flare(&blue, 12, &None, None).unwrap();
    assert_eq!(parts(b.ray_color), [0.0, 0.0, 1.0, 0.5]);
    assert_eq!(value(b.ray_opacity), 0.5);
    assert_eq!(
        create_flare(&args, 11, &None, None).unwrap_err(),
        "create_flare may generate at most 11 nodes, including the halo and group"
    );
    let (middle, left, right) = ray_angles(8, 3);
    let a = std::f64::consts::TAU * 3.0 / 8.0;
    assert_eq!(value(middle), a);
    let ray = flare_ray(&args, direction(middle), direction(left), direction(right));
    assert_eq!(end(&ray[1]), Some((10.0 + 70.0 * a.cos(), 20.0 + 70.0 * a.sin())));
}

fn path_scene() -> Vec<Node> {
    vec![
        node(1, "A", NodeKind::Path),
        node(2, "T", NodeKind::Text),
        node(3, "B", NodeKind::Path),
    ]
}

fn corner() -> Vec<PathEl> {
    vec![
        PathEl::MoveTo(point(0.0, 0.0)),
        PathEl::LineTo(point(10.0, 0.0)),
        PathEl::LineTo(point(10.0, 10.0)),
    ]
}

#[test]
fn effects_edit_the_paths_that_are_named() {
    let nodes = path_scene();
    let paths = vec![corner(), vec![], corner()];
    let plan = round_corners(&nodes, &paths, &names(&["B", "T", "?"]), Some(double(2.0))).unwrap();
    assert_eq!(plan.edits.len(), 1);
    assert_eq!((plan.edits[0].position, plan.skipped), (2, 2));
    assert!(plan.edits[0].path.iter().any(|e| matches!(e, PathEl::QuadTo(..))));
    let zig = zig_zag_path(&nodes, &paths, &names(&["A"]), None, None, false).unwrap();
    assert_eq!(zig.edits[0].path.len(), 1 + 2 * 8);
    let centers = vec![point(0.0, 0.0); 3];
    let puck =
        pucker_bloat(&nodes, &paths, &centers, &names(&["A"]), None, None, None).unwrap();
    assert_eq!(puck.edits[0].path[0], PathEl::MoveTo(point(0.0, 0.0)));
    assert!(bloats(None) && !bloats(Some(double(-0.1))));
    let e = |n: &[&str]| round_corners(&nodes, &paths, &names(n), None).unwrap_err();
    assert_eq!(e(&[]), "node_ids must not be empty");
    assert_eq!(e(&["T"]), "No path nodes found in node_ids");
    let rough = roughen_path(&nodes, &names(&["A", "B"]), None, Some(2), None).unwrap();
    assert_eq!(rough.seeds, vec![42, 43]);
    assert_eq!((value(rough.size), rough.detail), (5.0, 2));
    let twirl = twirl_path(&nodes, &names(&["A"]), None).unwrap();
    assert_eq!(value(twirl.angle), 90.0_f64.to_radians());
    let scallop = scallop_path(&nodes, &names(&["A"]), None, Some(0)).unwrap();
    assert_eq!((value(scallop.size), scallop.count), (10.0, 1));
    assert_eq!(crystallize_path(&nodes, &names(&["A"]), None, None).unwrap().count, 3);
    let warp = |kind: &str| {
        warp_envelope(&nodes, &names(&["A"]), kind, None, None, Some(double(0.2)))
    };
    let flag = warp("flag").unwrap();
    assert_eq!(flag.targets.positions, vec![0]);
    assert_eq!((value(flag.bend), value(flag.distort_h), value(flag.distort_v)), (0.5, 0.0, 0.2));
    assert_eq!(
        warp("melt").unwrap_err(),
        "Unknown warp_type: 'melt'. Use one of: arc, arc_lower, arc_upper, arch, bulge, wave, flag, squeeze, inflate, fisheye, shell_lower, shell_upper, fish, rise, twist"
    );
    assert_eq!(noise_deform(&nodes, &names(&["B"])).unwrap().positions, vec![2]);
}

#[test]
fn noise_moves_points_along_the_axes_that_are_asked_for() {
    let args = |axis: Option<&str>| NoiseArgs {
        amplitude: None,
        frequency: None,
        seed: Some(double(1.5)),
        axis: axis.map(|s| s.to_string()),
    };
    let p = point(3.0, 7.0);
    let (a, b, c, d) = noise_angles(&args(None), p);
    let half_turn = std::f64::consts::FRAC_PI_2;
    assert_eq!(value(a), 7.0 * 0.05 + 1.5);
    assert_eq!(value(b), 7.0 * 0.05 * 2.1 + 1.5 * 1.3);
    assert_eq!(value(c), 3.0 * 0.05 + 1.5 + half_turn);
    assert_eq!(value(d), 3.0 * 0.05 * 2.1 + 1.5 * 1.7);
    let sines = (
        double(value(a).sin()),
        double(value(b).sin()),
        double(value(c).sin()),
        double(value(d).sin()),
    );
    let q = noise_point(&args(None), p, sines);
    assert_eq!(value(q.x), 3.0 + (8.0 * value(a).sin() + 4.0 * value(b).sin()));
    assert_eq!(value(q.y), 7.0 + (8.0 * value(c).sin() + 4.0 * value(d).sin()));
    let x = noise_point(&args(Some("x")), p, sines);
    assert_eq!((x.x, x.y), (q.x, p.y));
    assert_eq!(noise_point(&args(Some("none")), p, sines), p);
}

#[test]
fn anchors_of_paths_are_edited_by_id() {
    let nodes = path_scene();
    let ids = vec![1, 2];
    let (plan, passes) = add_anchor_points(&nodes, &ids, Some(20)).unwrap();
    assert_eq!((plan.positions, passes), (vec![0], 8));
    assert_eq!(
        plan.message,
        "Added anchor points to 1 node(s) (8 passes) — 1 non-path node(s) skipped"
    );
    assert_eq!(
        reverse_path_direction(&nodes, &vec![1]).unwrap().message,
        "Reversed path direction on 1 node(s)"
    );
    assert_eq!(reverse_path_direction(&nodes, &vec![]).unwrap_err(), "node_ids must not be empty");
    assert_eq!(
        reverse_path_direction(&nodes, &vec![2]).unwrap_err(),
        "No path nodes found in node_ids"
    );
    let a = average_anchor_points(&nodes, &ids, &Some("horizontal".into())).unwrap();
    assert!(a.x && !a.y);
    let a = average_anchor_points(&nodes, &ids, &None).unwrap();
    assert!(a.x && a.y);
    assert_eq!(
        convert_anchor_points(&nodes, &ids, ConvertAnchorMode::Corner).unwrap().message,
        "Converted 1 node(s) to corner anchors (1 skipped)."
    );
    let s = smooth_path(&nodes, &vec![3], &vec![], double(0.9), 20);
    assert_eq!((s.positions, value(s.factor), s.iterations), (vec![2], 0.5, 8));
    assert_eq!(
        smooth_path(&nodes, &vec![], &vec![], double(0.9), 2).note.as_deref(),
        Some("No nodes specified or selected.")
    );
    let o = outline_stroke(&nodes, &vec![1, 3], &vec![true, true, false]).unwrap();
    assert_eq!(o.fills, vec![nodes[0].stroke_color]);
    assert_eq!(o.names, names(&["A outline"]));
    assert_eq!(o.message, "Outlined stroke on 1 node(s) — 1 node(s) skipped");
    assert!(outline_stroke(&nodes, &vec![2], &vec![true; 3]).is_err());
    let o = offset_path(&nodes, &vec![1], &vec![true; 3], None).unwrap();
    assert!(o.copies);
    assert_eq!(o.names, names(&["A offset"]));
    assert!(offset_path(&nodes, &vec![1], &vec![false; 3], None)
        .unwrap_err()
        .starts_with("No path nodes found or all offsets failed"));
    assert_eq!(join_style(&Some("bevel".into())), JoinStyle::Bevel);
    assert_eq!(join_style(&Some("?".into())), JoinStyle::Miter);
}

#[test]
fn what_is_left_of_a_path_begins_with_a_move() {
    let path = vec![
        PathEl::MoveTo(point(0.0, 0.0)),
        PathEl::LineTo(point(1.0, 0.0)),
        PathEl::LineTo(point(2.0, 0.0)),
        PathEl::LineTo(point(3.0, 0.0)),
        PathEl::ClosePath,
    ];
    assert_eq!(remove_elements(&path, &vec![]), path);
    assert_eq!(
        remove_elements(&path, &vec![0]),
        vec![
            PathEl::MoveTo(point(1.0, 0.0)),
            PathEl::LineTo(point(1.0, 0.0)),
            PathEl::LineTo(point(2.0, 0.0)),
            PathEl::LineTo(point(3.0, 0.0)),
            PathEl::ClosePath,
        ]
    );
    assert_eq!(remove_elements(&path, &vec![3]).len(), 3);
    let nodes = path_scene();
    let paths = vec![path, vec![], vec![]];
    let plan = delete_anchor_point(&nodes, &paths, "A", &vec![1, 1, 2]).unwrap();
    assert_eq!(plan.removed, 2);
    assert_eq!(plan.message, "Deleted 2 anchor(s) — 5 → 4 elements");
    let e = |name: &str, i: Vec<usize>| delete_anchor_point(&nodes, &paths, name, &i).unwrap_err();
    assert_eq!(e("A", vec![]), "anchor_indices must not be empty");
    assert_eq!(e("?", vec![0]), "Node not found: ?");
    assert_eq!(e("T", vec![0]), "Node is not a path");
    assert_eq!(e("A", vec![0, 9]), "Anchor index 9 out of range (path has 5 elements)");
    let anchors = vec![vec![0, 1, 3], vec![], vec![]];
    assert_eq!(proportional_move_anchor(&nodes, &anchors, "A", &vec![0, 3]), Ok(0));
    assert_eq!(
        proportional_move_anchor(&nodes, &anchors, "A", &vec![2, 0, 7]).unwrap_err(),
        "Invalid anchor_indices [2, 7]; this path's anchor element indices are [0, 1, 3]"
    );
}

#[test]
fn places_fall_into_the_first_segment_that_reaches_them() {
    let lengths = vec![double(10.0), double(30.0), double(10.0)];
    let p = find_place(&lengths, double(0.5)).unwrap();
    assert_eq!((p.segment, value(p.at)), (1, 0.5));
    assert_eq!((value(p.before), value(p.behind)), (0.499, 0.501));
    let p = find_place(&lengths, double(0.0)).unwrap();
    assert_eq!((p.segment, value(p.at), value(p.before)), (0, 0.0, 0.0));
    let p = find_place(&lengths, double(7.0)).unwrap();
    assert_eq!((p.segment, value(p.at), value(p.behind)), (2, 1.0, 1.0));
    let nodes = path_scene();
    let all = vec![lengths, vec![], vec![double(0.0)]];
    let (k, places) = point_on_path(&nodes, &all, "A", &vec![double(0.1)]).unwrap();
    assert_eq!((k, places[0].unwrap().segment), (0, 0));
    let e = |n: &str, l: &Vec<Vec<Double>>| point_on_path(&nodes, l, n, &vec![]).unwrap_err();
    assert_eq!(e("B", &all), "Path has zero length");
    assert_eq!(e("B", &vec![vec![], vec![], vec![]]), "Path has no segments");
    assert_eq!(e("T", &all), "Node is not a path");
    assert_eq!(e("00000000-0000-0000-0000-000000000063", &all), "Node not found");
    let mut closed = corner();
    closed.push(PathEl::ClosePath);
    let m = measure_path(&nodes, &vec![closed, vec![], vec![]], &all, "A").unwrap();
    assert_eq!((m.elements, m.anchors, m.segments, m.closed), (4, 3, 3, true));
    assert_eq!(value(m.length), 50.0);
}

#[test]
fn paths_are_simplified_joined_and_cut() {
    let mut nodes = path_scene();
    let p = simplify_path(&nodes, 1, double(0.5), 20, 5, true).unwrap();
    assert!(!p.applied);
    assert_eq!(value(p.reduction), 75.0);
    assert!(simplify_path(&nodes, 1, double(0.5), 0, 0, false).unwrap().applied);
    assert_eq!(
        simplify_path(&nodes, 1, double(0.0), 1, 1, true).unwrap_err(),
        "tolerance must be > 0"
    );
    assert_eq!(
        simplify_path(&nodes, 2, double(1.0), 1, 1, true).unwrap_err(),
        "Node must be a path node"
    );
    assert!(simplify_path(&nodes, 9, double(1.0), 1, 1, true)
        .unwrap_err()
        .starts_with("Node not found: 00000000-"));
    assert_eq!(join_paths(&nodes, &vec![1]).unwrap().0, JoinPlan::Close(0));
    assert_eq!(join_paths(&nodes, &vec![1, 3]).unwrap().0, JoinPlan::Join(0, 2));
    assert_eq!(
        join_paths(&nodes, &vec![]).unwrap_err(),
        "node_ids must contain 1 or 2 path node IDs"
    );
    assert_eq!(join_paths(&nodes, &vec![2]).unwrap_err(), "node is not a path node");
    assert!(join_paths(&nodes, &vec![1, 2]).unwrap_err().ends_with(" is not a path node"));
    assert!(join_paths(&nodes, &vec![1, 8]).unwrap_err().ends_with(" not found"));
    nodes[0].transform.a = double(2.0);
    nodes[0].transform.e = double(10.0);
    let sizes = vec![3, 0, 0];
    assert_eq!(find_cut(&nodes, &sizes, 1, point(30.0, 5.0)).unwrap(), point(10.0, 5.0));
    let plan = scissors_cut(&nodes, &sizes, 1, true).unwrap();
    assert_eq!((plan.first.as_str(), plan.second.as_str()), ("A (1/2)", "A (2/2)"));
    assert!(scissors_cut(&nodes, &sizes, 1, false).unwrap_err().starts_with("Could not split path"));
    assert_eq!(scissors_cut(&nodes, &sizes, 3, true).unwrap_err(), "Path has no segments to cut");
    assert_eq!(
        scissors_cut(&nodes, &sizes, 2, true).unwrap_err(),
        "scissors_cut only works on path nodes"
    );
    let m = kurbo::Affine::new([2.0, 0.5, -1.0, 3.0, 7.0, -4.0]);
    let own = m.inverse().as_coeffs();
    let ours = invert(&Affine {
        a: double(2.0),
        b: double(0.5),
        c: double(-1.0),
        d: double(3.0),
        e: double(7.0),
        f: double(-4.0),
    });
    let ours = [ours.a, ours.b, ours.c, ours.d, ours.e, ours.f].map(value);
    assert_eq!(ours, own);
}

#[test]
fn an_arrow_has_its_tip_at_the_point() {
    let args = ArrowArgs {
        x: double(5.0),
        y: double(7.0),
        length: Some(double(100.0)),
        head_width: None,
        head_depth: Some(double(0.3)),
        shaft_width: None,
    };
    let angle = 30f64.to_radians();
    let path = create_arrow_shape(&args, direction(double(angle)));
    let head = 100.0 * 0.3;
    let points = [
        (0.0, 0.0),
        (-head, -20.0),
        (-head, -8.0),
        (-100.0, -8.0),
        (-100.0, 8.0),
        (-head, 8.0),
        (-head, 20.0),
    ];
    assert_eq!(path.len(), 8);
    for (el, (px, py)) in path.iter().zip(points) {
        let x: f64 = px * angle.cos() - py * angle.sin() + 5.0;
        let y: f64 = px * angle.sin() + py * angle.cos() + 7.0;
        assert_eq!(end(el), Some((x, y)));
    }
    assert_eq!(path[7], PathEl::ClosePath);
    // The depth of the head is a share of the length from 0.1 to 0.9.
    let deep = ArrowArgs { head_depth: Some(double(2.0)), ..args };
    let straight = Direction { cosine: double(1.0), sine: double(0.0) };
    assert_eq!(end(&create_arrow_shape(&deep, straight)[1]), Some((5.0 - 90.0, -13.0)));
}

#[test]
fn a_bubble_points_with_its_tail() {
    let args = BubbleArgs {
        cx: double(100.0),
        cy: double(50.0),
        width: None,
        height: Some(double(20.0)),
        corner_radius: None,
        tail_x: None,
        tail_y: None,
        tail_width: None,
    };
    let path = create_speech_bubble(&args);
    assert_eq!(path.len(), 13);
    // The corners are at most half as high as the bubble.
    assert_eq!(end(&path[0]), Some((50.0, 40.0)));
    assert_eq!(path[2], PathEl::QuadTo(point(160.0, 40.0), point(160.0, 50.0)));
    assert_eq!(end(&path[5]), Some((110.0, 60.0)));
    assert_eq!(end(&path[6]), Some((90.0, 90.0)));
    assert_eq!(end(&path[7]), Some((90.0, 60.0)));
    assert_eq!(path[12], PathEl::ClosePath);
}

#[test]
fn rings_are_full_or_run_between_two_angles() {
    let mut args = DonutArgs {
        cx: double(1.0),
        cy: double(2.0),
        outer_radius: Some(double(40.0)),
        inner_radius: Some(double(90.0)),
        start_angle: None,
        end_angle: None,
    };
    let ring = create_donut(&args);
    assert!(ring.full);
    assert_eq!((value(ring.outer), value(ring.inner)), (40.0, 40.0 - 0.1));
    args.inner_radius = None;
    args.start_angle = Some(double(10.0));
    args.end_angle = Some(double(100.0));
    let ring = create_donut(&args);
    assert!(!ring.full);
    let (start, stop) = (10f64.to_radians(), 100f64.to_radians());
    let angles = arc_angles(double(start), double(stop));
    assert_eq!(angles.len(), 33);
    let turns: Vec<Direction> = angles.iter().map(|a| direction(*a)).collect();
    let path = open_ring(&ring, &turns, direction(double(stop)));
    assert_eq!(path.len(), 33 + 1 + 33 + 1);
    let at = |r: f64, a: f64| Some((1.0 + r * a.cos(), 2.0 + r * a.sin()));
    for i in 0..33 {
        let a = start + (stop - start) * (i as f64 / 32.0);
        assert_eq!(value(angles[i]), a);
        assert_eq!(end(&path[i]), at(40.0, a));
        assert_eq!(end(&path[66 - i]), at(25.0, a));
    }
    assert_eq!(end(&path[33]), at(25.0, stop));
}

#[test]
fn a_sunburst_draws_every_second_wedge() {
    assert_eq!(drawn_wedges(5), vec![0, 2, 4]);
    assert_eq!(drawn_wedges(4), vec![0, 2]);
    let burst = create_sunburst(double(3.0), double(4.0), Some(double(-1.0)), None, Some(2));
    assert_eq!((burst.rays, value(burst.inner), value(burst.outer)), (4, 0.0, 100.0));
    let burst = create_sunburst(double(3.0), double(4.0), None, None, Some(6));
    let turns = drawn_wedges(6)
        .into_iter()
        .map(|i| {
            let (a, b, mid) = wedge_angles(6, i);
            (direction(a), direction(b), direction(mid))
        })
        .collect();
    let path = sunburst_outline(&burst, &turns);
    assert_eq!(path.len(), 3 * 6);
    let step = std::f64::consts::TAU / 6.0;
    let at = |r: f64, a: f64| (3.0 + r * a.cos(), 4.0 + r * a.sin());
    for (k, i) in [0, 2, 4].into_iter().enumerate() {
        let (a, b) = (step * i as f64, step * (i + 1) as f64);
        let mid = at(100.0, (a + b) / 2.0);
        let (o0, o1) = (at(100.0, a), at(100.0, b));
        let control =
            (2.0 * mid.0 - 0.5 * (o0.0 + o1.0), 2.0 * mid.1 - 0.5 * (o0.1 + o1.1));
        assert_eq!(end(&path[6 * k]), Some(at(20.0, a)));
        assert_eq!(end(&path[6 * k + 1]), Some(o0));
        assert_eq!(
            path[6 * k + 2],
            PathEl::QuadTo(point(control.0, control.1), point(o1.0, o1.1))
        );
        assert_eq!(end(&path[6 * k + 3]), Some(at(20.0, b)));
        assert_eq!(end(&path[6 * k + 4]), Some(at(20.0, a)));
    }
}

#[test]
fn a_smooth_line_passes_through_its_points() {
    let points = vec![point(0.0, 0.0), point(10.0, 5.0), point(20.0, -5.0)];
    let line = smooth_line(&points);
    let ends: Vec<_> = line.iter().filter_map(end).collect();
    assert_eq!(ends, vec![(0.0, 0.0), (10.0, 5.0), (20.0, -5.0)]);
    assert!(smooth_line(&points[..1].to_vec()).is_empty());
    assert_eq!(polyline(&points).len(), 3);
    assert_eq!(total_length(&[1.5, 2.0, 4.0].map(double).to_vec()), double(7.5));
    assert_eq!(shape_name(ParametricShapeType::Rose), "Rose Curve");
    let mut args = curve(ParametricShapeType::Superellipse);
    args.exponent = Some(double(4.0));
    assert_eq!(find_superellipse_power(&args), double(0.5));
    assert_eq!(
        name_point_shape(3, None, 0).message,
        "Created 'Custom Shape' from 3 points (id: 00000000-0000-0000-0000-000000000000)"
    );
    assert_eq!(name_point_shape(3, Some("Mine"), 0).name, "Mine");
}

#[test]
fn fillets_take_at_most_half_of_a_shared_edge() {
    let square = vec![
        PathEl::MoveTo(point(0.0, 0.0)),
        PathEl::LineTo(point(10.0, 0.0)),
        PathEl::LineTo(point(10.0, 4.0)),
        PathEl::LineTo(point(0.0, 4.0)),
        PathEl::ClosePath,
    ];
    for radius in [1.0, 2.0, 3.0, 100.0] {
        let r = f64::min(radius, 2.0);
        let path = apply_round_corners(&square, double(radius));
        let curves: Vec<_> = path
            .iter()
            .filter_map(|el| match el {
                PathEl::QuadTo(p, q) => Some((value(p.x), value(p.y), value(q.x), value(q.y))),
                _ => None,
            })
            .collect();
        assert_eq!(
            curves,
            vec![
                (0.0, 0.0, r, 0.0),
                (10.0, 0.0, 10.0, r),
                (10.0, 4.0, 10.0 - r, 4.0),
                (0.0, 4.0, 0.0, 4.0 - r),
            ]
        );
    }
}

#[test]
fn edits_of_paths_count_in_the_history() {
    let nodes = path_scene();
    let paths = vec![corner(), vec![], corner()];
    let both = vec![1, 3];
    let zig = zig_zag_path(&nodes, &paths, &names(&["A", "B"]), None, None, false).unwrap();
    assert_eq!(zig.entries, 2);
    assert_eq!(add_anchor_points(&nodes, &both, None).unwrap().0.entries, 2);
    assert_eq!(reverse_path_direction(&nodes, &both).unwrap().entries, 2);
    let converted = convert_anchor_points(&nodes, &both, ConvertAnchorMode::Smooth).unwrap();
    assert_eq!((converted.positions, converted.entries), (vec![0, 2], 1));
    assert_eq!(smooth_path(&nodes, &vec![], &both, double(0.5), 1).entries, 1);
    assert_eq!(smooth_path(&nodes, &vec![], &vec![2], double(0.5), 1).entries, 0);
    assert_eq!(outline_stroke(&nodes, &both, &vec![true; 3]).unwrap().entries, 1);
    assert_eq!(offset_path(&nodes, &both, &vec![true; 3], None).unwrap().entries, 1);
}
