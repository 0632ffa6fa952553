use photonic_handlers::bezier::{
    apply_affine_to_path, apply_pucker_bloat, apply_round_corners, apply_roughen, apply_twirl,
    apply_zig_zag, find_twirl_angles, path_points, world_aabb, Affine, Bounds, PathEl, Point,
};
use photonic_handlers::double::Double;

fn double(value: f64) -> Double {
    Double { bits: value.to_bits() }
}

fn value(d: Double) -> f64 {
    f64::from_bits(d.bits)
}

fn point(x: f64, y: f64) -> Point {
    Point { x: double(x), y: double(y) }
}

fn coordinates(p: Point) -> (f64, f64) {
    (value(p.x), value(p.y))
}

fn affine(m: [f64; 6]) -> Affine {
    Affine {
        a: double(m[0]),
        b: double(m[1]),
        c: double(m[2]),
        d: double(m[3]),
        e: double(m[4]),
        f: double(m[5]),
    }
}

fn end_vertices(path: &[PathEl]) -> Vec<(f64, f64)> {
    path.iter()
        .filter_map(|el| match el {
            PathEl::MoveTo(p) => Some(coordinates(*p)),
            PathEl::LineTo(p) => Some(coordinates(*p)),
            PathEl::QuadTo(_, p) => Some(coordinates(*p)),
            _ => None,
        })
        .collect()
}

#[test]
fn open_run_corner_rounds_past_half_edge() {
    let path = vec![
        PathEl::MoveTo(point(0.0, 0.0)),
        PathEl::LineTo(point(10.0, 0.0)),
        PathEl::LineTo(point(10.0, 10.0)),
    ];
    let els = apply_round_corners(&path, double(8.0));
    let mut fillet_start = None;
    for (i, el) in els.iter().enumerate() {
        if let PathEl::QuadTo(ctrl, _) = el {
            let ctrl = coordinates(*ctrl);
            assert!((ctrl.0 - 10.0).abs() < 1e-6 && ctrl.1.abs() < 1e-6, "{ctrl:?}");
            if let PathEl::LineTo(p) = els[i - 1] {
                fillet_start = Some(coordinates(p));
            }
        }
    }
    let p = fillet_start.expect("expected a rounded corner preceded by a LineTo");
    assert!(p.0 < 5.0 - 1e-6, "{}", p.0);
    assert!((p.0 - 2.0).abs() < 1e-6, "{}", p.0);
}

#[test]
fn closed_square_splits_edges_fifty_fifty() {
    let path = vec![
        PathEl::MoveTo(point(0.0, 0.0)),
        PathEl::LineTo(point(10.0, 0.0)),
        PathEl::LineTo(point(10.0, 10.0)),
        PathEl::LineTo(point(0.0, 10.0)),
        PathEl::ClosePath,
    ];
    let out = apply_round_corners(&path, double(100.0));
    assert_eq!(out.len(), 9);
    for p in end_vertices(&out) {
        if p.1.abs() < 1e-6 || (p.1 - 10.0).abs() < 1e-6 {
            assert!((p.0 - 5.0).abs() < 1e-6, "{p:?}");
        }
        if p.0.abs() < 1e-6 || (p.0 - 10.0).abs() < 1e-6 {
            assert!((p.1 - 5.0).abs() < 1e-6, "{p:?}");
        }
    }
}

fn rect_bounds() -> Bounds {
    Bounds { x0: double(0.0), y0: double(0.0), x1: double(100.0), y1: double(50.0) }
}

fn assert_aabb(actual: [Double; 4], expected: [f64; 4]) {
    for (actual, expected) in actual.into_iter().zip(expected) {
        let actual = value(actual);
        assert!((actual - expected).abs() < 1e-9, "{actual} != {expected}");
    }
}

#[test]
fn world_aabb_transforms_all_four_corners() {
    let angle = std::f64::consts::FRAC_PI_4;
    let m = affine([angle.cos(), angle.sin(), -angle.sin(), angle.cos(), 20.0, 30.0]);
    let extent = 75.0 * 2.0_f64.sqrt();
    assert_aabb(
        world_aabb(Some(rect_bounds()), &m).unwrap(),
        [20.0 - 25.0 * 2.0_f64.sqrt(), 30.0, extent, extent],
    );
}

#[test]
fn world_aabb_handles_shear_reflection_and_missing_bounds() {
    let m = affine([-1.0, 0.5, 1.5, -1.0, 20.0, 30.0]);
    assert_aabb(world_aabb(Some(rect_bounds()), &m).unwrap(), [-80.0, -20.0, 175.0, 100.0]);
    assert!(world_aabb(None, &m).is_none());
}

#[test]
fn a_matrix_maps_every_point_and_keeps_the_elements() {
    let path = vec![
        PathEl::MoveTo(point(1.0, 2.0)),
        PathEl::QuadTo(point(3.0, 4.0), point(5.0, 6.0)),
        PathEl::CurveTo(point(0.0, 0.0), point(1.0, 1.0), point(2.0, 2.0)),
        PathEl::ClosePath,
    ];
    let moved = apply_affine_to_path(&path, &affine([2.0, 0.0, 0.0, 3.0, 10.0, 20.0]));
    assert_eq!(
        moved,
        vec![
            PathEl::MoveTo(point(12.0, 26.0)),
            PathEl::QuadTo(point(16.0, 32.0), point(20.0, 38.0)),
            PathEl::CurveTo(point(10.0, 20.0), point(12.0, 23.0), point(14.0, 26.0)),
            PathEl::ClosePath,
        ]
    );
}

#[test]
fn bloating_pushes_points_away_from_the_centre() {
    let path = vec![PathEl::MoveTo(point(3.0, 4.0)), PathEl::LineTo(point(0.0, 0.0))];
    let out = apply_pucker_bloat(&path, double(0.5), point(0.0, 0.0));
    // The centre itself stays; a point at the distance 5 moves along its own ray.
    assert_eq!(out[1], PathEl::LineTo(point(0.0, 0.0)));
    let PathEl::MoveTo(p) = out[0] else { unreachable!() };
    let (x, y) = coordinates(p);
    assert!(x > 3.0 && (y / x - 4.0 / 3.0).abs() < 1e-12, "{x} {y}");
    let PathEl::MoveTo(q) = apply_pucker_bloat(&path, double(-0.5), point(0.0, 0.0))[0] else {
        unreachable!()
    };
    assert!(value(q.x) < 3.0);
}

#[test]
fn roughening_moves_each_point_by_its_own_values() {
    let path = vec![PathEl::MoveTo(point(0.0, 0.0)), PathEl::LineTo(point(10.0, 0.0))];
    let values = vec![(double(1.0), double(0.5)), (double(-1.0), double(0.0))];
    let out = apply_roughen(&path, double(2.0), &values);
    assert_eq!(
        out,
        vec![PathEl::MoveTo(point(2.0, 1.0)), PathEl::LineTo(point(8.0, 0.0))]
    );
}

#[test]
fn a_twirl_turns_points_by_the_angles_found_for_them() {
    let path = vec![
        PathEl::MoveTo(point(1.0, 0.0)),
        PathEl::LineTo(point(2.0, 0.0)),
        PathEl::ClosePath,
    ];
    let quarter = std::f64::consts::FRAC_PI_2;
    let angles = find_twirl_angles(&path, double(quarter), point(0.0, 0.0)).unwrap();
    assert_eq!(angles.len(), path_points(&path).len());
    let turns: Vec<_> =
        angles.iter().map(|a| (double(value(*a).cos()), double(value(*a).sin()))).collect();
    let out = apply_twirl(&path, point(0.0, 0.0), &turns);
    for (before, after) in path.iter().zip(&out) {
        if let (PathEl::MoveTo(p), PathEl::MoveTo(q)) | (PathEl::LineTo(p), PathEl::LineTo(q)) =
            (before, after)
        {
            let (p, q) = (coordinates(*p), coordinates(*q));
            assert!((p.0.hypot(p.1) - q.0.hypot(q.1)).abs() < 1e-12);
        }
    }
    let spot = vec![PathEl::MoveTo(point(0.0, 0.0))];
    assert!(find_twirl_angles(&spot, double(quarter), point(0.0, 0.0)).is_none());
}

#[test]
fn zig_zags_leave_the_line_by_half_their_size() {
    let path = vec![PathEl::MoveTo(point(0.0, 0.0)), PathEl::LineTo(point(8.0, 0.0))];
    let out = apply_zig_zag(&path, double(3.0), 2, false);
    let ends = end_vertices(&out);
    assert_eq!(ends[0], (0.0, 0.0));
    assert_eq!(*ends.last().unwrap(), (8.0, 0.0));
    assert_eq!(ends[1..4], [(2.0, 1.5), (4.0, -1.5), (6.0, 1.5)]);
}
