use photonic_handlers::arrange::{
    align_nodes, circle_angles, layout_nodes, AlignAnchor, AlignOperation, CrossAxisAlign,
    LayoutMode, LayoutNodesArgs,
};
use photonic_handlers::bezier::{Affine, Bounds, PathEl, Point};
use photonic_handlers::canvas::{center_on_canvas, fit_path, fit_to_canvas, snap_to_pixel, Fit};
use photonic_handlers::copies::{
    create_array, distribute_on_path, draws_needed, duplicate_nodes, mirror_copy, mirror_message,
    places_on_path, rotate_copies, scatter_copies, split_into_grid, transform_copies,
    turned_matrix, ArrayArgs, ArrayMode, CopyStep, Extra, PathSample, ScatterArgs, SplitArgs,
    SplitError, TransformCopiesArgs,
};
use photonic_handlers::double::Double;
use photonic_handlers::layouts::{
    apply_flex_layout, apply_grid_layout, apply_stack_layout, reorder_node, FlexArgs, GridArgs,
    Place, Relative, ReorderOperation,
};
use photonic_handlers::order::sort_indices;
use photonic_handlers::scene::{
    Color, Fill, Node, NodeKind, ScriptPosition, TextAlign, TextState,
};
use photonic_handlers::spread::distribute_no_overlap;
use photonic_handlers::transform::{
    apply_transform, flatten_group, flip_matrix, flip_node, flip_nodes, flip_path,
    reverse_node_order, Factors, Flipped, Geometry, NodeTransform, Rotation, TransformOperation, TransformRequest, Translation,
};

fn double(value: f64) -> Double {
    Double { bits: value.to_bits() }
}

fn value(d: Double) -> f64 {
    f64::from_bits(d.bits)
}

fn color(r: f64, g: f64, b: f64) -> Color {
    Color { r: double(r), g: double(g), b: double(b), a: double(1.0) }
}

fn bounds(x0: f64, y0: f64, x1: f64, y1: f64) -> Bounds {
    Bounds { x0: double(x0), y0: double(y0), x1: double(x1), y1: double(y1) }
}

fn node(id: u128, name: &str, kind: NodeKind) -> Node {
    Node {
        id,
        name: name.into(),
        layer: 1,
        kind,
        tags: vec![],
        visible: true,
        locked: false,
        opacity: double(1.0),
        blend_mode: 0,
        bounds: Some(bounds(0.0, 0.0, 10.0, 10.0)),
        transform: Affine {
            a: double(1.0),
            b: double(0.0),
            c: double(0.0),
            d: double(1.0),
            e: double(0.0),
            f: double(0.0),
        },
        children: vec![],
        fill_enabled: true,
        fill: Fill::Solid(color(1.0, 0.0, 0.0)),
        stroke_enabled: false,
        stroke_color: color(0.0, 0.0, 0.0),
        stroke_width: double(1.0),
        font_family: "Inter".into(),
        content: String::new(),
        text: TextState {
            font_size: double(16.0),
            font_weight: 400,
            letter_spacing: double(0.0),
            line_height: double(1.5),
            align: TextAlign::Left,
            baseline_shift: double(0.0),
            script_position: ScriptPosition::Normal,
            spacing_before: double(0.0),
            spacing_after: double(0.0),
            indent: double(0.0),
            area_path: None,
            path_spine: None,
            features: vec![],
            variable: None,
            prev_frame: None,
            next_frame: None,
        },
        blend_spine: None,
        symbol: None,
    }
}

fn names(list: &[&str]) -> Vec<String> {
    list.iter().map(|s| s.to_string()).collect()
}

fn boxed(id: u128, x: f64, y: f64, w: f64, h: f64) -> Node {
    let mut n = node(id, &format!("N{id}"), NodeKind::Path);
    n.bounds = Some(bounds(x, y, x + w, y + h));
    n
}

fn three() -> Vec<Node> {
    vec![
        boxed(1, 0.0, 0.0, 10.0, 10.0),
        boxed(2, 30.0, 5.0, 20.0, 10.0),
        boxed(3, 100.0, 50.0, 10.0, 30.0),
    ]
}

fn canvas() -> (Double, Double) {
    (double(200.0), double(100.0))
}

#[test]
fn nodes_are_aligned_to_the_selection_the_canvas_or_a_key_object() {
    let nodes = three();
    let ids = vec![1, 2, 3];
    let plan = align_nodes(
        &nodes,
        &ids,
        canvas(),
        AlignOperation::Right,
        AlignAnchor::Selection,
        None,
        None,
    )
    .unwrap();
    let moves: Vec<_> =
        plan.moves.iter().map(|m| (m.position, value(m.dx), value(m.dy))).collect();
    assert_eq!(moves, vec![(0, 100.0, 0.0), (1, 60.0, 0.0)]);
    assert_eq!(plan.entries, 1);
    let mut column = three();
    for n in &mut column {
        n.bounds = Some(bounds(5.0, 0.0, 15.0, 10.0));
        n.transform = affine([1.0, 0.0, 0.0, 1.0, 0.0, 0.0]);
    }
    let (left, own) = (AlignOperation::Left, AlignAnchor::Selection);
    let still = align_nodes(&column, &ids, canvas(), left, own, None, None).unwrap();
    assert_eq!((still.moves.len(), still.entries), (0, 0));
    assert_eq!(still.message, "All nodes are already aligned — no changes made");
    assert_eq!(plan.message, "Aligned 2 node(s) — operation: right, anchor: selection");
    let plan = align_nodes(
        &nodes,
        &ids,
        canvas(),
        AlignOperation::CenterVertical,
        AlignAnchor::Canvas,
        None,
        None,
    )
    .unwrap();
    assert_eq!(value(plan.moves[0].dy), 45.0);
    let plan = align_nodes(
        &nodes,
        &ids,
        canvas(),
        AlignOperation::Top,
        AlignAnchor::KeyObject,
        Some(2),
        None,
    )
    .unwrap();
    assert_eq!(value(plan.moves[0].dy), 5.0);
    let spread = align_nodes(
        &nodes,
        &ids,
        canvas(),
        AlignOperation::DistributeHorizontal,
        AlignAnchor::Selection,
        None,
        None,
    )
    .unwrap();
    // 110 wide, 40 of it boxes: two gaps of 35.
    assert_eq!(value(spread.moves[0].dx), 15.0);
    assert!(spread.moves.iter().all(|m| m.position != 0));
    let spaced = align_nodes(
        &nodes,
        &ids,
        canvas(),
        AlignOperation::DistributeHorizontal,
        AlignAnchor::Selection,
        None,
        Some(double(7.5)),
    )
    .unwrap();
    assert!(
        spaced.message.ends_with("distribute_horizontal, anchor: selection, spacing: 7.5px"),
        "{}",
        spaced.message
    );
    let e = |ids: Vec<u128>| {
        align_nodes(
            &nodes,
            &ids,
            canvas(),
            AlignOperation::Left,
            AlignAnchor::Selection,
            None,
            None,
        )
        .unwrap_err()
    };
    assert_eq!(e(vec![1]), "align_nodes requires at least 2 node IDs");
    assert!(e(vec![1, 9]).starts_with("Could not find enough nodes"));
}

fn layout(mode: LayoutMode) -> LayoutNodesArgs {
    LayoutNodesArgs {
        layout: mode,
        columns: Some(2),
        gap_x: Some(double(5.0)),
        gap_y: Some(double(5.0)),
        cell_width: None,
        cell_height: None,
        x: Some(double(0.0)),
        y: Some(double(0.0)),
        cx: None,
        cy: None,
        radius: None,
        gap: Some(double(10.0)),
        align: CrossAxisAlign::Start,
        directions: vec![],
    }
}

#[test]
fn nodes_are_laid_out_in_stacks_and_grids() {
    let nodes = three();
    let plan = layout_nodes(&nodes, &vec![1, 2, 3], &layout(LayoutMode::StackHorizontal)).unwrap();
    let moves: Vec<_> =
        plan.moves.iter().map(|m| (m.position, value(m.dx), value(m.dy))).collect();
    assert_eq!(moves, vec![(1, -10.0, -5.0), (2, -50.0, -50.0)]);
    assert_eq!(plan.entries, 1);
    let alone = layout_nodes(&nodes, &vec![1], &layout(LayoutMode::StackHorizontal)).unwrap();
    assert_eq!((alone.moves.len(), alone.entries), (0, 0));
    assert!(plan.message.starts_with("layout_nodes: moved 2 of 3 node(s) using StackHorizontal"));
    assert_eq!(
        layout_nodes(&nodes, &vec![], &layout(LayoutMode::Grid)).unwrap_err(),
        "node_ids must not be empty"
    );
    assert!(layout_nodes(&nodes, &vec![8], &layout(LayoutMode::Grid))
        .unwrap_err()
        .starts_with("Node not found: "));
    let angles = circle_angles(double(0.0), 4);
    assert_eq!(angles.len(), 4);
    assert_eq!(value(angles[1]), 90.0);
}

#[test]
fn indices_are_sorted_and_equal_keys_keep_their_order() {
    let keys: Vec<_> = [3.0, 1.0, 2.0, 1.0].iter().map(|x| double(*x)).collect();
    assert_eq!(sort_indices(&keys), vec![1, 3, 2, 0]);
}

#[test]
fn nodes_change_their_depth_within_the_layer() {
    let place = Some(Place { layer: 7, index: 2 });
    let go = |op, rel| reorder_node(5, place, 6, op, rel);
    assert_eq!(go(ReorderOperation::SendToBack, None).unwrap().new_index, 0);
    assert_eq!(go(ReorderOperation::BringToFront, None).unwrap().new_index, 5);
    assert_eq!(go(ReorderOperation::SendBackward, None).unwrap().new_index, 1);
    assert_eq!(go(ReorderOperation::BringForward, None).unwrap().new_index, 3);
    let other = Some(Relative { id: 9, place: Some(Place { layer: 7, index: 4 }) });
    let above = go(ReorderOperation::MoveAbove, other).unwrap().new_index;
    let below = go(ReorderOperation::MoveBelow, other).unwrap().new_index;
    let mut v = vec![0, 1, 5, 3, 9, 6];
    let x = v.remove(2);
    v.insert(above, x);
    assert_eq!(v, vec![0, 1, 3, 9, 5, 6]);
    let mut v = vec![0, 1, 5, 3, 9, 6];
    let x = v.remove(2);
    v.insert(below, x);
    assert_eq!(v, vec![0, 1, 3, 5, 9, 6]);
    assert_eq!(
        go(ReorderOperation::MoveAbove, None).unwrap_err(),
        "relative_id is required for move_above / move_below"
    );
    let far = Some(Relative { id: 9, place: Some(Place { layer: 8, index: 4 }) });
    assert_eq!(go(ReorderOperation::MoveBelow, far).unwrap_err(), "Nodes must be in the same layer");
    assert!(reorder_node(5, None, 6, ReorderOperation::SendToBack, None)
        .unwrap_err()
        .ends_with(" not found"));
}

fn grouped() -> Vec<Node> {
    let mut nodes = three();
    let mut group = node(10, "Row", NodeKind::Group);
    group.children = vec![1, 2, 3];
    nodes.push(group);
    nodes
}

#[test]
fn children_of_a_group_are_placed() {
    let nodes = grouped();
    let flex = FlexArgs { direction: None, gap: None, align: None, padding: None };
    let placed = apply_flex_layout(&nodes, "Row", &flex).unwrap().placed;
    assert_eq!(placed.len(), 3);
    assert!(value(placed[0].tx) <= value(placed[1].tx));
    let stack = apply_stack_layout(&nodes, "Row", &None, &None).unwrap().placed;
    assert_eq!(stack.len(), 3);
    let grid = GridArgs { columns: Some(2), gap_x: None, gap_y: None, padding: None };
    let g = apply_grid_layout(&nodes, "Row", &grid).unwrap();
    assert_eq!((g.columns, g.rows), (2, 2));
    assert_eq!(apply_flex_layout(&nodes, "N1", &flex).unwrap_err(), "Target node is not a group.");
    assert_eq!(apply_flex_layout(&nodes, "?", &flex).unwrap_err(), "Node '?' not found.");
    let mut empty = node(11, "Empty", NodeKind::Group);
    empty.children = vec![];
    let p = apply_flex_layout(&vec![empty], "Empty", &flex).unwrap();
    assert_eq!(p.note.as_deref(), Some("Group has no children — nothing to layout."));
}

#[test]
fn artwork_is_centred_fitted_and_snapped() {
    let nodes = three();
    let plan =
        center_on_canvas(&nodes, &vec![], &names(&["N1"]), canvas(), true, true).unwrap();
    assert_eq!((value(plan.dx), value(plan.dy)), (95.0, 45.0));
    assert_eq!(
        center_on_canvas(&nodes, &vec![], &vec![], canvas(), true, true).unwrap_err(),
        "No nodes specified and nothing selected"
    );
    let fit = fit_to_canvas(&nodes, &names(&["N1"]), canvas(), Some(double(10.0))).unwrap();
    assert_eq!(value(fit.fit.scale), 1.0);
    let fit = fit_to_canvas(&nodes, &names(&["N1"]), canvas(), Some(double(48.0))).unwrap();
    assert_eq!(value(fit.fit.scale), 0.4);
    assert_eq!(
        fit_to_canvas(&nodes, &names(&["N1"]), canvas(), Some(double(60.0))).unwrap_err(),
        "Canvas too small for the specified padding"
    );
    let mut off = three();
    off[0].transform.e = double(0.4);
    let snap = snap_to_pixel(&off, &vec![1, 2]).unwrap();
    assert_eq!(snap.snaps.len(), 1);
    assert_eq!(value(snap.snaps[0].tx), 0.0);
    assert_eq!(snap.message, "Snapped 1 of 2 node(s) to pixel coordinates");
    // What was snapped stays.
    off[0].transform.e = snap.snaps[0].tx;
    off[0].transform.f = snap.snaps[0].ty;
    assert!(snap_to_pixel(&off, &vec![1, 2]).unwrap().snaps.is_empty());
    assert_eq!(
        snap_to_pixel(&three(), &vec![1]).unwrap().message,
        "1 node(s) already on integer coordinates — no changes made"
    );
}

#[test]
fn overlapping_nodes_move_apart_and_others_stay() {
    let apart = three();
    let plan = distribute_no_overlap(&apart, &vec![1, 2], &vec![], Some(double(0.0)), None).unwrap();
    assert!(plan.moves.is_empty());
    assert_eq!(plan.message, "No overlapping nodes found — nothing moved");
    let close = vec![boxed(1, 0.0, 0.0, 10.0, 10.0), boxed(2, 5.0, 0.0, 10.0, 10.0)];
    let plan = distribute_no_overlap(&close, &vec![1, 2], &vec![], Some(double(0.0)), None).unwrap();
    assert!(!plan.moves.is_empty());
    let gap: f64 = 5.0
        + plan.moves.iter().map(|m| if m.position == 1 { value(m.dx) } else { -value(m.dx) }).sum::<f64>();
    assert!(gap >= 10.0 - 1e-6, "{gap}");
    assert_eq!(
        distribute_no_overlap(&close, &vec![1], &vec![], None, None).unwrap_err(),
        "need at least 2 nodes to distribute"
    );
}

fn request(operation: TransformOperation) -> TransformRequest {
    TransformRequest {
        operation,
        translate: None,
        rotate: None,
        scale: None,
        shear: None,
        matrix: None,
    }
}

fn affine(m: [f64; 6]) -> Affine {
    Affine {
        a: double(m[0]),
        b: double(m[1]),
        c: double(m[2]),
        d: double(m[3]),
        e: double(m[4]),
        f: double(m[5]),
    }
}

#[test]
fn transform_rejects_legacy_empty_path_without_mutating_it() {
    let nodes = vec![node(1, "empty legacy path", NodeKind::Path)];
    let mut q = request(TransformOperation::Matrix);
    q.matrix = Some(affine([1.0, 0.0, 0.0, 1.0, 10.0, 20.0]));
    let e = apply_transform(&nodes, &vec![Geometry::Empty], &vec![], &vec![1], &q).unwrap_err();
    assert!(e.ends_with(": path has no drawable geometry"), "{e}");
    let broken = vec![Geometry::Invalid("bad".into())];
    let e = apply_transform(&nodes, &broken, &vec![], &vec![1], &q).unwrap_err();
    assert!(e.ends_with(": invalid geometry: bad"), "{e}");
    let good = vec![Geometry::Drawable];
    let plan = apply_transform(&nodes, &good, &vec![], &vec![1], &q).unwrap();
    assert!(matches!(plan.steps[0].transform, NodeTransform::Matrix(_)));
    assert_eq!(plan.message, "Transformed 1 node(s)");
    let origin = Point { x: double(3.0), y: double(4.0) };
    let turn = Rotation { degrees: double(30.0), origin };
    let mut rotate = request(TransformOperation::Rotate);
    rotate.rotate = Some(turn);
    let plan = apply_transform(&nodes, &good, &vec![], &vec![1], &rotate).unwrap();
    assert_eq!(plan.entries, 1);
    assert_eq!(plan.steps[0].transform, NodeTransform::Rotate(turn));
    let by = Translation { x: double(1.0), y: double(2.0) };
    let mut shift = request(TransformOperation::Translate);
    shift.translate = Some(by);
    let plan = apply_transform(&nodes, &good, &vec![], &vec![1], &shift).unwrap();
    assert_eq!(plan.steps[0].transform, NodeTransform::Translate(by));
    let factors = Factors { x: double(2.0), y: double(0.5), origin };
    let mut scale = request(TransformOperation::Scale);
    scale.scale = Some(factors);
    let plan = apply_transform(&nodes, &good, &vec![], &vec![1], &scale).unwrap();
    assert_eq!(plan.steps[0].transform, NodeTransform::Scale(factors));
    let mut shear = request(TransformOperation::Shear);
    shear.shear = Some(factors);
    let plan = apply_transform(&nodes, &good, &vec![], &vec![1], &shear).unwrap();
    assert_eq!(plan.steps[0].transform, NodeTransform::Shear(factors));
    q.matrix = Some(affine([f64::NAN, 0.0, 0.0, 1.0, 10.0, 20.0]));
    assert_eq!(
        apply_transform(&nodes, &good, &vec![], &vec![1], &q).unwrap_err(),
        "Transform matrix coefficients must be finite"
    );
    assert_eq!(
        apply_transform(&nodes, &good, &vec![], &vec![1], &request(TransformOperation::Rotate))
            .unwrap_err(),
        "apply_transform operation requires the 'rotate' parameter"
    );
    let reflect = request(TransformOperation::ReflectHorizontal);
    assert_eq!(
        apply_transform(&nodes, &good, &vec![], &vec![], &reflect).unwrap_err(),
        "No nodes specified and no active selection"
    );
}

#[test]
fn a_flip_twice_is_no_flip() {
    let m = affine([2.0, 0.5, 0.25, 3.0, 10.0, 20.0]);
    assert_eq!(flip_matrix(&flip_matrix(&m, true, false), true, false), m);
    let plain = affine([1.0, 0.0, -0.0, 1.0, 0.0, 0.0]);
    assert_eq!(flip_matrix(&plain, true, false).c.bits, 0);
    assert_eq!(flip_matrix(&flip_matrix(&plain, true, true), true, true), plain);
    let p = |x: f64, y: f64| Point { x: double(x), y: double(y) };
    let path = vec![PathEl::MoveTo(p(0.0, 0.0)), PathEl::LineTo(p(4.0, 2.0))];
    let b = bounds(0.0, 0.0, 4.0, 2.0);
    let once = flip_path(&path, &b, true, false);
    assert_eq!(once[0], PathEl::MoveTo(p(4.0, 0.0)));
    assert_eq!(flip_path(&once, &b, true, false), path);
    let nodes = three();
    let mut outlines = vec![vec![]; nodes.len()];
    outlines[0] = path.clone();
    let plan = flip_nodes(&nodes, &outlines, &vec![], &names(&["N1"]), "vertical").unwrap();
    let area = nodes[0].bounds.unwrap();
    assert_eq!(plan.flips[0].position, 0);
    assert!(
        matches!(&plan.flips[0].flipped, Some(Flipped::Outline(o)) if *o == flip_path(&path, &area, false, true))
    );
    assert_eq!(plan.entries, 1);
    // A node that is listed twice is flipped twice, the second time as it then stands.
    let twice = flip_nodes(&nodes, &outlines, &vec![], &names(&["N1", "N2", "N1"]), "vertical").unwrap();
    let first: Vec<_> = twice.flips.iter().map(|f| (f.position, f.flipped.is_some())).collect();
    assert_eq!(first, vec![(0, true), (1, true), (0, false)]);
    assert_eq!((twice.entries, twice.message.as_str()), (3, "Flipped 3 node(s) vertically"));
    let mut text = node(7, "T", NodeKind::Text);
    text.transform = m;
    let turned = flip_node(&text, &vec![], true, false);
    assert!(matches!(turned, Flipped::Matrix(f) if f == flip_matrix(&m, true, false)));
    assert_eq!(plan.message, "Flipped 1 node(s) vertically");
    assert_eq!(
        flip_nodes(&nodes, &outlines, &vec![], &names(&["N1"]), "both").unwrap_err(),
        "axis must be 'horizontal' or 'vertical'"
    );
}

#[test]
fn group_children_are_reversed_and_groups_dissolved() {
    let nodes = grouped();
    let plan = reverse_node_order(&nodes, &vec![10, 1], &vec![]).unwrap();
    assert_eq!(plan.reversals[0].children, vec![3, 2, 1]);
    assert_eq!(plan.message, "Reversed child order in 1 group node(s). Skipped: 1.");
    assert_eq!(
        reverse_node_order(&nodes, &vec![1], &vec![]).unwrap_err(),
        "No group nodes with 2+ children found in the specified IDs"
    );
    let mut nested = grouped();
    let mut outer = node(20, "Outer", NodeKind::Group);
    outer.children = vec![10];
    nested.push(outer);
    assert_eq!(flatten_group(&nested, &vec![20], &vec![]).unwrap(), vec![10, 20]);
    assert_eq!(flatten_group(&nested, &vec![10, 20, 10], &vec![]).unwrap(), vec![10, 20]);
    assert_eq!(flatten_group(&nested, &vec![20, 10], &vec![]).unwrap(), vec![10, 20]);
    assert_eq!(
        flatten_group(&nested, &vec![1], &vec![]).unwrap_err(),
        "No groups found to flatten"
    );
}

#[test]
fn copies_are_counted_offset_and_named() {
    let nodes = three();
    let plan = duplicate_nodes(
        &nodes,
        &vec![1, 2],
        Some(3),
        Some((double(40.0), double(700.0))),
        Some(9),
    )
    .unwrap();
    assert_eq!(plan.copies.len(), 6);
    assert!(plan.copies.iter().all(|c| c.layer == 9));
    assert!(plan.copies.iter().any(|c| (value(c.dx), value(c.dy)) == (40.0, 700.0)));
    assert!(plan.copies.iter().any(|c| (value(c.dx), value(c.dy)) == (120.0, 2100.0)));
    assert!(plan.message.ends_with("6 new root node(s)"));
    assert_eq!(plan.entries, 1);
    assert!(duplicate_nodes(&nodes, &vec![8], None, None, None).unwrap_err().ends_with(" not found"));
    assert_eq!(duplicate_nodes(&nodes, &vec![], None, None, None).unwrap_err(), "Nothing to duplicate");
}

fn array(mode: ArrayMode) -> ArrayArgs {
    ArrayArgs {
        mode,
        rows: Some(2),
        cols: Some(2),
        row_stride: Some(double(20.0)),
        col_stride: Some(double(30.0)),
        count: Some(4),
        center_x: Some(double(50.0)),
        center_y: None,
        start_angle_degrees: None,
        name_prefix: None,
        layer_id: None,
        group_result: true,
    }
}

#[test]
fn arrays_hold_the_source_and_its_copies() {
    let nodes = three();
    let plan = create_array(&nodes, 1, &array(ArrayMode::Grid), 100, 4).unwrap();
    assert_eq!((plan.group_index, plan.entries), (4, 1));
    let shifts: Vec<_> = plan
        .copies
        .iter()
        .map(|c| match c.extra {
            Extra::Shift(x, y) => (value(x), value(y)),
            Extra::Turn { .. } => unreachable!(),
        })
        .collect();
    assert_eq!(shifts, vec![(30.0, 0.0), (0.0, 20.0), (30.0, 20.0)]);
    assert_eq!(plan.group.as_deref(), Some("N1 Array"));
    let radial = create_array(&nodes, 1, &array(ArrayMode::Radial), 100, 4).unwrap();
    assert_eq!(radial.copies.len(), 3);
    let turned = Extra::Turn {
        degrees: double(180.0),
        center: Point { x: double(50.0), y: double(0.0) },
    };
    assert_eq!(radial.copies[1].extra, turned);
    assert_eq!((radial.layer, radial.entries), (nodes[0].layer, 1));
    let mut elsewhere = array(ArrayMode::Radial);
    elsewhere.layer_id = Some(77);
    assert_eq!(create_array(&nodes, 1, &elsewhere, 100, 4).unwrap().layer, 77);
    assert!(create_array(&nodes, 1, &array(ArrayMode::Grid), 3, 4)
        .unwrap_err()
        .starts_with("Grid must have at most 3 cells"));
    let mut one = array(ArrayMode::Grid);
    one.rows = Some(1);
    one.cols = Some(1);
    assert!(create_array(&nodes, 1, &one, 100, 4).unwrap_err().starts_with("Grid must have at least 2"));
    let mut few = array(ArrayMode::Radial);
    few.count = Some(1);
    assert_eq!(create_array(&nodes, 1, &few, 100, 4).unwrap_err(), "Radial count must be ≥ 2");
    let mut huge = array(ArrayMode::Grid);
    huge.rows = Some(usize::MAX);
    assert!(create_array(&nodes, 1, &huge, 100, 4).unwrap_err().starts_with("Grid dimensions overflow"));
    assert!(create_array(&nodes, 9, &one, 100, 4).unwrap_err().starts_with("Source node "));
}

#[test]
fn copies_are_scattered_within_the_region() {
    let nodes = three();
    let args = ScatterArgs {
        count: Some(5),
        x: double(100.0),
        y: double(200.0),
        width: double(50.0),
        height: double(60.0),
        rotation_range: None,
        scale_range: None,
    };
    let values: Vec<_> = (0..5 * draws_needed(&args)).map(|i| double((i % 7) as f64 / 7.0)).collect();
    let scattered = scatter_copies(&nodes, "N1", &args, 100, &values).unwrap();
    assert_eq!((scattered.source, scattered.copies.len(), scattered.entries), (0, 5, 5));
    for c in &scattered.copies {
        assert!((100.0..=150.0).contains(&value(c.x)) && (200.0..=260.0).contains(&value(c.y)));
    }
    assert_eq!(
        scatter_copies(&nodes, "N1", &args, 4, &values).unwrap_err(),
        "scatter_copies may generate at most 4 copies"
    );
    let steps: Vec<_> = (0..2)
        .map(|_| CopyStep {
            cosine: double(1.0),
            sine: double(0.0),
            scale: double(1.0),
            opacity: double(1.0),
        })
        .collect();
    let t = TransformCopiesArgs {
        copies: Some(2),
        translate_x: Some(double(7.0)),
        translate_y: None,
    };
    let stepped = transform_copies(&nodes, "N1", &t, &steps).unwrap();
    assert_eq!((stepped.source, stepped.copies.len(), stepped.entries), (0, 2, 2));
    assert!(transform_copies(&nodes, "?", &t, &steps).is_err());
}

#[test]
fn paths_are_split_into_cells() {
    let nodes = vec![boxed(1, 10.0, 20.0, 100.0, 60.0), node(2, "T", NodeKind::Text)];
    let args = |id, rows, cols, gutter: f64| SplitArgs {
        id,
        rows,
        cols,
        gutter_x: Some(double(gutter)),
        gutter_y: Some(double(gutter)),
        layer_id: None,
        keep_original: None,
    };
    let plan = split_into_grid(&nodes, &args(1, 2, 3, 5.0), 100).unwrap();
    assert_eq!(plan.cells.len(), 6);
    assert_eq!((value(plan.cell_width), value(plan.cell_height)), (30.0, 27.5));
    assert_eq!((value(plan.cells[4].x), value(plan.cells[4].y)), (45.0, 52.5));
    assert_eq!((plan.layer, plan.entries), (nodes[0].layer, 1));
    let elsewhere = SplitArgs { layer_id: Some(9), ..args(1, 2, 3, 5.0) };
    assert_eq!(split_into_grid(&nodes, &elsewhere, 100).unwrap().layer, 9);
    assert!(plan.message.starts_with("Split into 2×3 grid — created 6 rectangles"));
    let e = |a: SplitArgs| match split_into_grid(&nodes, &a, 100).unwrap_err() {
        SplitError::Message(m) => m,
        SplitError::NoWidth(..) => "width".into(),
        SplitError::NoHeight(..) => "height".into(),
    };
    assert_eq!(e(args(1, 0, 1, 0.0)), "rows must be ≥ 1");
    assert_eq!(e(args(1, 1, 0, 0.0)), "cols must be ≥ 1");
    assert_eq!(e(args(1, 99, 99, 0.0)), "split_into_grid may generate at most 100 cells (rows × cols)");
    assert_eq!(e(args(2, 1, 1, 0.0)), "split_into_grid requires a path node");
    assert_eq!(e(args(1, 1, 3, 60.0)), "width");
    assert_eq!(e(args(1, 3, 1, 60.0)), "height");
}

#[test]
fn copies_follow_a_path_turn_and_mirror() {
    let nodes = three();
    let sample = PathSample {
        x: double(5.0),
        y: double(6.0),
        cosine: double(1.0),
        sine: double(0.0),
    };
    assert_eq!(places_on_path(None, 3), 3);
    let plan = distribute_on_path(&nodes, &vec![1], 2, &vec![sample; 2], true, None).unwrap();
    assert_eq!((plan.path, plan.copies.len()), (1, 2));
    assert_eq!((plan.layer, plan.entries), (nodes[1].layer, 1));
    let plan = distribute_on_path(&nodes, &vec![1], 2, &vec![sample; 2], true, Some(9)).unwrap();
    assert_eq!(plan.layer, 9);
    assert!(distribute_on_path(&nodes, &vec![], 2, &vec![sample], true, None)
        .unwrap_err()
        .starts_with("node_ids must not"));
    assert!(distribute_on_path(&nodes, &vec![1], 2, &vec![], true, None)
        .unwrap_err()
        .starts_with("Path has no geometry"));
    let turned = rotate_copies(&nodes, "N1", 4, None, None, false).unwrap();
    assert_eq!((turned.entries, turned.layer), (1, nodes[0].layer));
    let held = rotate_copies(&nodes, "N1", 4, None, None, true).unwrap();
    assert_eq!((held.entries, held.group_index), (4, 0));
    let angles: Vec<f64> = turned.copies.iter().map(|c| value(c.angle)).collect();
    assert_eq!(angles.len(), 3);
    assert!((angles[0] - std::f64::consts::FRAC_PI_2).abs() < 1e-12 || angles[0] == 90.0, "{angles:?}");
    assert_eq!(
        rotate_copies(&nodes, "N1", 1, None, None, false).unwrap_err(),
        "count must be at least 2."
    );
    let outlines = vec![vec![PathEl::MoveTo(Point { x: double(1.0), y: double(2.0) })]; nodes.len()];
    let mirror =
        mirror_copy(&nodes, &outlines, &vec![], &names(&["N1"]), &Some("vertical".into())).unwrap();
    assert!(!mirror.horizontal);
    assert_eq!(mirror.copies[0].name, "N1 mirror");
    assert_eq!((mirror.copies[0].source, mirror.copies[0].layer), (0, nodes[0].layer));
    let area = nodes[0].bounds.unwrap();
    assert!(
        matches!(&mirror.copies[0].flipped, Flipped::Outline(o) if *o == flip_path(&outlines[0], &area, false, true))
    );
    assert!(mirror_message(&vec![1], true).starts_with("Created 1 mirrored copy"));
    assert_eq!(
        mirror_copy(&nodes, &outlines, &vec![9], &vec![], &None).unwrap_err(),
        "No nodes found to mirror"
    );
}

#[test]
fn a_path_is_fitted_point_by_point() {
    let fit = Fit {
        scale: double(2.0),
        art_cx: double(10.0),
        art_cy: double(20.0),
        canvas_cx: double(100.0),
        canvas_cy: double(50.0),
    };
    let at = |x: f64, y: f64| Point { x: double(x), y: double(y) };
    let path = vec![
        PathEl::MoveTo(at(4.0, 8.0)),
        PathEl::QuadTo(at(5.0, 12.0), at(6.0, 8.0)),
        PathEl::ClosePath,
    ];
    assert_eq!(
        fit_path(&path, double(3.0), double(10.0), &fit),
        vec![
            PathEl::MoveTo(at(94.0, 46.0)),
            PathEl::QuadTo(at(96.0, 54.0), at(98.0, 46.0)),
            PathEl::ClosePath,
        ]
    );
}

#[test]
fn the_place_of_a_turned_copy_is_turned() {
    let matrix = |v: [f64; 6]| Affine {
        a: double(v[0]),
        b: double(v[1]),
        c: double(v[2]),
        d: double(v[3]),
        e: double(v[4]),
        f: double(v[5]),
    };
    let node = matrix([1.0, 0.0, 0.0, 1.0, 3.0, 4.0]);
    let with_turn = matrix([0.0, 1.0, -1.0, 0.0, 7.0, 9.0]);
    let turn = matrix([0.0, 1.0, -1.0, 0.0, 10.0, 0.0]);
    assert_eq!(
        turned_matrix(&node, &with_turn, &turn),
        matrix([0.0, 1.0, -1.0, 0.0, 6.0, 3.0])
    );
}
