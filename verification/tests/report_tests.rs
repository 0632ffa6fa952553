use photonic_handlers::canvas::{CenterPlan, Fit, FitPlan};
use photonic_handlers::copies::{ScatterArgs, SplitError, TransformCopiesArgs};
use photonic_handlers::double::Double;
use photonic_handlers::find_replace::{Change, StyleEdit};
use photonic_handlers::hatch::{stipple_settings, HatchArgs, StippleArgs};
use photonic_handlers::layouts::{FlexArgs, GridArgs};
use photonic_handlers::outlines::{
    choose_gear, ArrowArgs, BubbleArgs, GearArgs, Ring, Sunburst, WaveArgs,
};
use photonic_handlers::parametric::{CurveArgs, ParametricShapeType};
use photonic_handlers::path_edits::{PathMeasure, SimplifyPlan};
use photonic_handlers::path_tools::{
    NoiseArgs, NotchPlan, PathTargets, RoughenPlan, SmoothPlan, WarpPlan,
};
use photonic_handlers::reports::{
    arrow_report, bubble_report, center_report, cross_report, crystallize_report, donut_report,
    fill_report, fit_report, flare_report, flatten_report, flex_report, gear_report,
    grid_layout_report, grid_report, hatch_report, heart_report, measure_report, metrics_report,
    noise_report, nothing_report, offset_report, paragraph_report, parametric_report, pixel_report,
    polar_grid_report, proportional_report, pucker_bloat_report, roughen_report,
    round_corners_report, scallop_report, scatter_report, simplify_report, smooth_report,
    spiral_report, split_report, stack_report, stipple_report, style_edit_report, sunburst_report,
    tab_stops_report,
    text_path_report, transform_copies_report, twirl_report, warp_report, wave_report,
    zig_zag_report, ChangeWords,
};
use photonic_handlers::scene::{Color, ScriptPosition};
use photonic_handlers::shapes::{CellGrid, Flare, FlareRing, PolarGrid};
use photonic_handlers::typography::{CharacterMetrics, ParagraphOptions};

const NIL: &str = "00000000-0000-0000-0000-000000000000";

fn double(value: f64) -> Double {
    Double { bits: value.to_bits() }
}

fn some(value: f64) -> Option<Double> {
    Some(double(value))
}

fn targets() -> PathTargets {
    PathTargets { positions: vec![0], skipped: 0, entries: 1 }
}

#[test]
fn figures_are_reported_with_their_measures() {
    let one = double(1.0);
    let white = Color { r: one, g: one, b: one, a: one };
    let ring = FlareRing { radius: one, color: white, width: one };
    let flare = Flare {
        halo: double(50.0),
        halo_color: white,
        rays: 12,
        ray_color: white,
        ray_opacity: one,
        rings: vec![ring],
        names: vec![],
        layer: 0,
        group: "Lens Flare".into(),
        group_index: 0,
        entries: 15,
    };
    assert_eq!(
        flare_report(double(1.5), double(-2.0), &flare),
        "Created lens flare at (1.5, -2) — 12 rays, 1 rings, halo r=50"
    );
    assert_eq!(
        spiral_report("S", double(3.0), double(40.5), double(0.1), 0),
        format!("Created spiral 'S' (3 turns, outer_r=40.5, inner_r=0.1) id: {NIL}")
    );
    let polar =
        PolarGrid { inner: double(0.0), rings: 4, sectors: 8, name: "P".into() };
    assert_eq!(
        polar_grid_report(&polar, double(80.0), 0),
        format!("Created polar grid 'P' (4 rings, 8 sectors, outer_r=80) id: {NIL}")
    );
    let cells = CellGrid { cols: 3, rows: 2, name: "G".into() };
    assert_eq!(
        grid_report(&cells, double(90.0), double(60.25), 0),
        format!("Created grid 'G' (3×2 cells, 90×60.25 size) id: {NIL}")
    );
    assert_eq!(heart_report(double(1.0), double(2.0), None), "Created heart at (1,2), size=60");
    let args = GearArgs {
        cx: double(0.0),
        cy: double(0.5),
        outer_radius: None,
        inner_radius: some(20.0),
        hole_radius: some(0.0),
        teeth: Some(2),
    };
    let (gear, hole) = choose_gear(&args);
    assert_eq!(hole, None);
    assert_eq!(choose_gear(&GearArgs { hole_radius: None, ..args }).1, some(10.0));
    assert_eq!(gear_report(&gear), "Created gear at (0,0.5) — 3 teeth, outer=50, inner=20");
    let bubble = BubbleArgs {
        cx: double(1.0),
        cy: double(2.0),
        width: None,
        height: some(33.3),
        corner_radius: None,
        tail_x: None,
        tail_y: None,
        tail_width: None,
    };
    assert_eq!(bubble_report(&bubble), "Created speech bubble at (1,2), 120×33.3");
    assert_eq!(
        cross_report(double(1.0), double(2.0), some(12.0), None),
        "Created cross at (1,2), size=12, thickness=12"
    );
    let arrow = ArrowArgs {
        x: double(7.0),
        y: double(8.0),
        length: None,
        head_width: None,
        head_depth: None,
        shaft_width: None,
    };
    assert_eq!(arrow_report(&arrow, some(45.0)), "Created arrow shape at (7,8) length=100 dir=45°");
    let ring = Ring {
        cx: double(0.0),
        cy: double(0.0),
        outer: double(40.0),
        inner: double(39.9),
        full: true,
    };
    assert_eq!(donut_report(&ring), "Created donut at (0,0) — outer=40, inner=39.9");
    let burst = Sunburst {
        cx: double(0.0),
        cy: double(0.0),
        inner: double(20.0),
        outer: double(100.0),
        rays: 24,
    };
    assert_eq!(
        sunburst_report(&burst),
        "Created sunburst at (0,0) — 24 rays, inner=20, outer=100"
    );
    let wave = WaveArgs {
        x: double(0.0),
        y: double(0.0),
        width: double(10.0),
        height: double(10.0),
        lines: Some(0),
        wavelength: some(0.2),
        amplitude: None,
    };
    assert_eq!(wave_report(&wave), "Created wave pattern — 1 lines, wavelength=1, amplitude=10");
    let curve = CurveArgs {
        shape_type: ParametricShapeType::Rose,
        cx: double(1.0),
        cy: double(2.0),
        radius: None,
        points: Some(1),
        ratio_x: None,
        ratio_y: None,
        freq_a: None,
        freq_b: None,
        delta_deg: None,
        exponent: None,
        petals: None,
        inner_ratio: None,
        pen_ratio: None,
    };
    assert_eq!(parametric_report(&curve), "Created Rose Curve at (1,2) with 3 points");
}

#[test]
fn effects_are_reported_with_their_defaults() {
    assert_eq!(
        zig_zag_report(2, None, None, false, 1),
        "Applied zig-zag to 2 node(s) (size=10, ridges=4, smooth=false) — 1 skipped"
    );
    assert_eq!(
        pucker_bloat_report(1, None, 0),
        "Applied bloat (strength=0.5) to 1 node(s)"
    );
    assert_eq!(
        pucker_bloat_report(1, some(-0.25), 0),
        "Applied pucker (strength=-0.25) to 1 node(s)"
    );
    let rough =
        RoughenPlan { targets: targets(), seeds: vec![42], size: double(5.0), detail: 2 };
    assert_eq!(roughen_report(1, &rough, 0), "Roughened 1 node(s) (size=5, detail=2)");
    assert_eq!(twirl_report(3, None, 2), "Twirled 3 node(s) by 90° — 2 skipped");
    assert_eq!(
        round_corners_report(1, some(-4.0), 0),
        "Rounded corners on 1 node(s) (radius=0)"
    );
    let warp = WarpPlan {
        targets: targets(),
        bend: double(0.5),
        distort_h: double(0.0),
        distort_v: double(0.0),
    };
    assert_eq!(warp_report("flag", 1, &warp, 0), "Applied 'flag' warp to 1 node(s) (bend=0.5)");
    let notch = NotchPlan { targets: targets(), size: double(10.0), count: 3 };
    assert_eq!(
        scallop_report(1, &notch, 0),
        "Applied scallop to 1 node(s) (depth=10, count=3)"
    );
    assert_eq!(
        crystallize_report(1, &notch, 1),
        "Applied crystallize to 1 node(s) (size=10, count=3) — 1 skipped"
    );
    let noise = NoiseArgs { amplitude: None, frequency: None, seed: None, axis: None };
    assert_eq!(
        noise_report(&noise, 1, 0),
        "Noise-deformed 1 path node(s) (amplitude=8.0, frequency=0.0500, axis=both, seed=0.00). Skipped: 0."
    );
    assert_eq!(
        proportional_report(2, double(1.5), double(0.0), 7, double(50.0), double(2.0)),
        "Proportionally moved 2 primary anchor(s) by (1.5, 0); 7 anchor(s) affected within spread 50 (curve 2)"
    );
    let measure = PathMeasure {
        position: 0,
        elements: 5,
        segments: 4,
        length: double(39.96),
        anchors: 4,
        closed: true,
    };
    assert_eq!(
        measure_report("A", &measure),
        "Path 'A': length=40.0, 4 anchors, 4 segments, closed"
    );
    assert_eq!(offset_report(2, double(0.0), 0), "Offset 2 path(s) by +0.0 units");
    assert_eq!(
        offset_report(2, double(-3.25), 1),
        "Offset 2 path(s) by -3.2 units — 1 node(s) skipped"
    );
    let smooth = SmoothPlan {
        positions: vec![0, 3],
        factor: double(0.25),
        iterations: 8,
        entries: 1,
        note: None,
    };
    assert_eq!(
        smooth_report(&smooth),
        "Smoothed 2 path node(s) with factor=0.25, iterations=8."
    );
    let mut plan = SimplifyPlan { position: 0, reduction: double(62.5), applied: true };
    assert_eq!(
        simplify_report(&plan, "A", 8, 3),
        "Simplified 'A': 8 → 3 points (62% reduction)"
    );
    plan.applied = false;
    assert_eq!(
        simplify_report(&plan, "A", 8, 3),
        "Dry run: 'A' — 8 points → 3 points (62% reduction)"
    );
}

#[test]
fn fills_and_samples_are_reported() {
    let args = HatchArgs { spacing: some(0.1), angle: None, cross_angle: None };
    assert_eq!(
        hatch_report(&args, 2, 1).unwrap(),
        "Created hatch fill for 2 node(s) (spacing=0.5, angle=45°) — 1 skipped"
    );
    assert_eq!(
        hatch_report(&args, 0, 3).unwrap_err(),
        "No valid path nodes found for hatch fill"
    );
    assert_eq!(
        stipple_report(None, 1, 0).unwrap(),
        "Created stipple fill for 1 node(s) (200 dots each)"
    );
    assert_eq!(
        stipple_report(None, 0, 1).unwrap_err(),
        "No valid path nodes found for stipple fill"
    );
    let settings = stipple_settings(&StippleArgs { count: Some(0), dot_radius: None, seed: Some(0) });
    assert_eq!((settings.count, settings.attempts, settings.seed), (1, 20, 1));
    assert_eq!(settings.dot_radius, double(1.5));
    let settings = stipple_settings(&StippleArgs { count: None, dot_radius: some(3.0), seed: None });
    assert_eq!((settings.count, settings.attempts, settings.seed), (200, 4000, 42));
    assert_eq!(
        fill_report("A", Some("#ff0000"), None),
        "Sampled 'A': fill=#ff0000, stroke=none"
    );
    assert_eq!(pixel_report("A", "#010203"), "Sampled 'A': color=#010203 (raster pixel)");
    assert_eq!(nothing_report(double(1.0), double(2.5)), "No node at (1, 2.5)");
}

#[test]
fn layouts_and_copies_are_reported() {
    assert_eq!(flatten_report(3), "Flattened 3 group(s)");
    let center = CenterPlan { positions: vec![1], dx: double(10.0), dy: double(-0.04), entries: 1 };
    assert_eq!(center_report(&center), "Centered 1 node(s) on canvas (dx=10.0, dy=-0.0)");
    let zero = double(0.0);
    let fit = Fit { scale: double(0.5), art_cx: zero, art_cy: zero, canvas_cx: zero, canvas_cy: zero };
    assert_eq!(
        fit_report(&FitPlan { positions: vec![0, 1], fit, entries: 2 }),
        "Fit 2 node(s) to canvas (scale=0.50)"
    );
    let scatter = ScatterArgs {
        count: None,
        x: double(1.0),
        y: double(2.0),
        width: double(30.5),
        height: double(40.0),
        rotation_range: None,
        scale_range: None,
    };
    assert_eq!(
        scatter_report(&scatter, "A"),
        "Scattered 20 copies of 'A' in area (1,2) 30.5×40"
    );
    let copies = TransformCopiesArgs { copies: Some(0), translate_x: some(5.0), translate_y: None };
    assert_eq!(
        transform_copies_report(&copies, "A", some(15.0), None),
        "Created 1 copies of 'A' (translate=[5,0], rotate=15°, scale=1)"
    );
    let flex = FlexArgs { direction: None, gap: None, align: Some("start".into()), padding: None };
    assert_eq!(
        flex_report(&flex, 4),
        "Applied row flex layout to 4 children (gap=8, align=start, padding=0)."
    );
    assert_eq!(
        stack_report(2, "g", &None, &Some("top".into())),
        "Stacked 2 children in 'g' (align_h=center, align_v=top)."
    );
    let grid = GridArgs { columns: None, gap_x: some(2.5), gap_y: None, padding: None };
    assert_eq!(
        grid_layout_report(&grid, 5, 3, 2),
        "Applied grid layout to 5 children (3 cols × 2 rows, gap=2.5×8)."
    );
    assert_eq!(
        split_report(&SplitError::NoWidth(double(50.0), double(-1.0))),
        "gutter_x (50) is too large — cells would have non-positive width (-1.00)"
    );
    assert_eq!(
        split_report(&SplitError::NoHeight(double(0.5), double(0.0))),
        "gutter_y (0.5) is too large — cells would have non-positive height (0.00)"
    );
    assert_eq!(split_report(&SplitError::Message("why".into())), "why");
}

#[test]
fn text_settings_are_reported() {
    let metrics = CharacterMetrics {
        baseline_shift: double(2.5),
        script_position: ScriptPosition::Superscript,
    };
    assert_eq!(
        metrics_report("T", &metrics),
        "Character metrics on 'T' set: baseline_shift=2.5, script_position=superscript."
    );
    assert_eq!(
        text_path_report("T", "P", double(12.0)),
        "Text node 'T' now follows path 'P'  (offset: 12.0)."
    );
    let options = ParagraphOptions {
        spacing_before: double(3.0),
        spacing_after: double(0.0),
        indent: double(1.25),
    };
    assert_eq!(
        paragraph_report("T", &options),
        "Paragraph options on 'T': spacing_before=3.0, spacing_after=0.0, indent=1.2."
    );
    assert_eq!(
        tab_stops_report("T", &vec![double(10.0), double(20.5)]),
        "Set 2 tab stop(s) on 'T': [10.0, 20.5]"
    );
}

#[test]
fn changes_are_told_from_what_and_to_what() {
    let c = Color { r: double(0.0), g: double(0.0), b: double(0.0), a: double(1.0) };
    let edit = StyleEdit {
        position: 0,
        changes: vec![
            Change::Fill { from: c, to: c },
            Change::GradientStop { index: 1, from: c, to: c },
            Change::FluidPoint { index: 0, from: c, to: c },
            Change::MeshCell { index: 12, from: c, to: c },
            Change::Stroke { from: c, to: c },
            Change::StrokeWidth { was: double(1.5), becomes: double(2.0) },
            Change::FontFamily,
            Change::Opacity { was: double(1.0), becomes: double(f64::from(0.25_f32)) },
        ],
        family: Some(("Inter".into(), "Roboto".into())),
    };
    let words: Vec<ChangeWords> = edit
        .changes
        .iter()
        .map(|_| ChangeWords {
            from: "#ff0000".into(),
            to: "#00ff00".into(),
            at: (double(33.4), double(7.0)),
        })
        .collect();
    assert_eq!(
        style_edit_report(&edit, &words),
        vec![
            "fill: #ff0000 → #00ff00",
            "gradient stop @33%: #ff0000 → #00ff00",
            "fluid point (33,7): #ff0000 → #00ff00",
            "mesh cell 12: #ff0000 → #00ff00",
            "stroke: #ff0000 → #00ff00",
            "stroke-width: 1.5 → 2",
            "font-family: Inter → Roboto",
            "opacity: 1.00 → 0.25",
        ]
    );
}
