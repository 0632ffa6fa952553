//! Tilings of square tiles that lie in one of two ways.
use crate::arrange::{given_or_default, or_default};
use crate::bezier::{PathEl, Point, ONE};
use crate::double::Double;
use crate::figures::{find_layer, layer_or_active, SHORT_P1};
use crate::find_replace::{arg_color, color_of};
use crate::float::{
    clamped, divided, exact, f_add, f_clamp, f_div, f_max, f_mul, f_sub, from_count, half, halved,
    lemma_positive, maximum, minus, plus, raised, raised_count, times, whole,
};
use crate::outlines::P1;
use crate::scene::{Color, ColorArg};
use crate::steps::{is_plain, lemma_add, lemma_half, lemma_plain, lemma_times};
use crate::text::{chars_of, decimal_text, number_text, push_all, push_str, same_text, text_of};
use vstd::prelude::*;

verus! {

/// The factor of the generator of pseudo-random numbers.
pub const FACTOR: u64 = 6364136223846793005;

/// The summand of the generator.
pub const SUMMAND: u64 = 1442695040888963407;

/// How many rows and columns a tiling has at most.
pub const MOST_TILES: usize = 50;

/// 0.5523 as a number: how far the handles of a quarter circle reach.
pub const KAPPA: u64 = 0x3fe1_ac71_0cb2_95ea;

/// 0.18 in the binary32 format.
pub const SHORT_P18: u64 = 0x3fc7_0a3d_8000_0000;

#[derive(Debug)]
pub struct TilingArgs {
    pub x: Double,
    pub y: Double,
    pub width: Option<Double>,
    pub height: Option<Double>,
    pub tile_size: Option<Double>,
    pub seed: Option<u64>,
    pub style: Option<String>,
    pub stroke_width: Option<Double>,
    pub color: Option<ColorArg>,
    pub background: Option<ColorArg>,
    pub layer_id: Option<String>,
}

#[derive(Debug, Clone, Copy, PartialEq, Eq, Structural)]
pub enum TileStyle {
    Arcs,
    Diagonals,
    Triangles,
}

/// A tile: its name and its outline.
#[derive(Debug)]
pub struct Tile {
    pub name: String,
    pub path: Vec<PathEl>,
}

pub open spec fn tile_views(v: Seq<Tile>) -> Seq<(Seq<char>, Seq<PathEl>)> {
    Seq::new(v.len(), |i: int| (v[i].name@, v[i].path@))
}

/// How a tile is painted.
#[derive(Debug, Clone, Copy, PartialEq, Eq, Structural)]
pub enum TilePaint {
    Filled(Color),
    Stroked { color: Color, width: Double },
}

/// What lies behind the tiles: its colour and its outline.
#[derive(Debug)]
pub struct Background {
    pub name: String,
    pub color: Color,
    pub path: Vec<PathEl>,
}

/// A tiling: its background where there is one, its tiles and how they are painted,
/// and the layer that all of it goes to.
#[derive(Debug)]
pub struct Tiling {
    pub cols: usize,
    pub rows: usize,
    pub style: TileStyle,
    pub paint: TilePaint,
    pub background: Option<Background>,
    pub tiles: Vec<Tile>,
    pub layer: u128,
    /// The name of the group that holds the background, where there is one, and the
    /// tiles.
    pub group: String,
    /// Where the group stands in its layer.
    pub group_index: usize,
    pub message: String,
}

/// The state behind a state, modulo 2 to the power 64.
pub open spec fn next_state(s: u64) -> u64 {
    ((s * FACTOR + SUMMAND) % 0x1_0000_0000_0000_0000) as u64
}

/// The state after the seed and `n` further steps.
pub open spec fn state_after(seed: u64, n: nat) -> u64
    decreases n,
{
    if n == 0 {
        next_state(seed)
    } else {
        next_state(state_after(seed, (n - 1) as nat))
    }
}

/// Which way a tile lies: by one bit of its state.
pub open spec fn lies_first_way(s: u64) -> bool {
    (s as nat / 0x2_0000_0000) % 2 == 0
}

fn step(s: u64) -> (r: u64)
    ensures
        r == next_state(s),
{
    proof {
        assert(s as u128 * FACTOR as u128 <= 0xffff_ffff_ffff_ffff * 0xffff_ffff_ffff_ffff)
            by (nonlinear_arith)
            requires
                0 <= s <= 0xffff_ffff_ffff_ffff,
                0 <= FACTOR <= 0xffff_ffff_ffff_ffff,
        ;
    }
    let t: u128 = (s as u128) * (FACTOR as u128);
    ((t + SUMMAND as u128) % 0x1_0000_0000_0000_0000) as u64
}

pub open spec fn style_of(style: Option<String>) -> TileStyle {
    match style {
        Some(s) => if s@ == "diagonals"@ {
            TileStyle::Diagonals
        } else if s@ == "triangles"@ {
            TileStyle::Triangles
        } else {
            TileStyle::Arcs
        },
        None => TileStyle::Arcs,
    }
}

pub open spec fn at(x: Double, y: Double) -> Point {
    Point { x, y }
}

/// Two quarter circles that connect the middles of the edges: round the corners top
/// left and bottom right, or round the other two.
pub open spec fn arcs(x: Double, y: Double, s: Double, first: bool) -> Seq<PathEl> {
    let m = half(s);
    let k = f_mul(m, Double { bits: KAPPA });
    let xm = f_add(x, m);
    let ym = f_add(y, m);
    let xs = f_add(x, s);
    let ys = f_add(y, s);
    if first {
        seq![
            PathEl::MoveTo(at(xm, y)),
            PathEl::CurveTo(at(f_sub(xm, k), y), at(x, f_sub(ym, k)), at(x, ym)),
            PathEl::MoveTo(at(xm, ys)),
            PathEl::CurveTo(at(f_add(xm, k), ys), at(xs, f_add(ym, k)), at(xs, ym)),
        ]
    } else {
        seq![
            PathEl::MoveTo(at(xm, y)),
            PathEl::CurveTo(at(f_add(xm, k), y), at(xs, f_sub(ym, k)), at(xs, ym)),
            PathEl::MoveTo(at(xm, ys)),
            PathEl::CurveTo(at(f_sub(xm, k), ys), at(x, f_add(ym, k)), at(x, ym)),
        ]
    }
}

/// The outline of a tile with its corner at `(x, y)`.
pub open spec fn tile_path(x: Double, y: Double, s: Double, style: TileStyle, first: bool) -> Seq<
    PathEl,
> {
    let xs = f_add(x, s);
    let ys = f_add(y, s);
    match style {
        TileStyle::Diagonals => if first {
            seq![PathEl::MoveTo(at(x, y)), PathEl::LineTo(at(xs, ys))]
        } else {
            seq![PathEl::MoveTo(at(xs, y)), PathEl::LineTo(at(x, ys))]
        },
        TileStyle::Triangles => if first {
            seq![
                PathEl::MoveTo(at(x, y)),
                PathEl::LineTo(at(xs, y)),
                PathEl::LineTo(at(x, ys)),
                PathEl::ClosePath,
            ]
        } else {
            seq![
                PathEl::MoveTo(at(xs, y)),
                PathEl::LineTo(at(xs, ys)),
                PathEl::LineTo(at(x, ys)),
                PathEl::ClosePath,
            ]
        },
        TileStyle::Arcs => arcs(x, y, s, first),
    }
}

fn draw_arcs(x: Double, y: Double, s: Double, first: bool) -> (r: Vec<PathEl>)
    ensures
        r@ == arcs(x, y, s, first),
{
    let m = halved(s);
    let k = times(m, Double { bits: KAPPA });
    let xm = plus(x, m);
    let ym = plus(y, m);
    let xs = plus(x, s);
    let ys = plus(y, s);
    let mut out: Vec<PathEl> = Vec::new();
    out.push(PathEl::MoveTo(Point { x: xm, y }));
    if first {
        out.push(
            PathEl::CurveTo(
                Point { x: minus(xm, k), y },
                Point { x, y: minus(ym, k) },
                Point { x, y: ym },
            ),
        );
        out.push(PathEl::MoveTo(Point { x: xm, y: ys }));
        out.push(
            PathEl::CurveTo(
                Point { x: plus(xm, k), y: ys },
                Point { x: xs, y: plus(ym, k) },
                Point { x: xs, y: ym },
            ),
        );
    } else {
        out.push(
            PathEl::CurveTo(
                Point { x: plus(xm, k), y },
                Point { x: xs, y: minus(ym, k) },
                Point { x: xs, y: ym },
            ),
        );
        out.push(PathEl::MoveTo(Point { x: xm, y: ys }));
        out.push(
            PathEl::CurveTo(
                Point { x: minus(xm, k), y: ys },
                Point { x, y: plus(ym, k) },
                Point { x, y: ym },
            ),
        );
    }
    assert(out@ =~= arcs(x, y, s, first));
    out
}

fn draw_tile(x: Double, y: Double, s: Double, style: TileStyle, first: bool) -> (r: Vec<PathEl>)
    ensures
        r@ == tile_path(x, y, s, style, first),
{
    let xs = plus(x, s);
    let ys = plus(y, s);
    let mut out: Vec<PathEl> = Vec::new();
    match style {
        TileStyle::Diagonals => {
            if first {
                out.push(PathEl::MoveTo(Point { x, y }));
                out.push(PathEl::LineTo(Point { x: xs, y: ys }));
            } else {
                out.push(PathEl::MoveTo(Point { x: xs, y }));
                out.push(PathEl::LineTo(Point { x, y: ys }));
            }
        },
        TileStyle::Triangles => {
            if first {
                out.push(PathEl::MoveTo(Point { x, y }));
                out.push(PathEl::LineTo(Point { x: xs, y }));
                out.push(PathEl::LineTo(Point { x, y: ys }));
            } else {
                out.push(PathEl::MoveTo(Point { x: xs, y }));
                out.push(PathEl::LineTo(Point { x: xs, y: ys }));
                out.push(PathEl::LineTo(Point { x, y: ys }));
            }
            out.push(PathEl::ClosePath);
        },
        TileStyle::Arcs => {
            return draw_arcs(x, y, s, first);
        },
    }
    assert(out@ =~= tile_path(x, y, s, style, first));
    out
}

pub open spec fn tiling_width(args: TilingArgs) -> Double {
    f_max(or_default(args.width, whole(200)), whole(4))
}

pub open spec fn tiling_height(args: TilingArgs) -> Double {
    f_max(or_default(args.height, whole(200)), whole(4))
}

pub open spec fn tile_size(args: TilingArgs) -> Double {
    f_clamp(or_default(args.tile_size, whole(40)), whole(4), whole(400))
}

pub open spec fn seed_of(args: TilingArgs) -> u64 {
    match args.seed {
        Some(s) => s,
        None => 42,
    }
}

/// How many tiles cover a length, at most as many as a tiling may have.
pub open spec fn tiles_over(length: Double, size: Double) -> nat {
    raised(f_div(length, size), MOST_TILES as nat)
}

/// Tile number `i`, row by row.
pub open spec fn tile_at(args: TilingArgs, cols: nat, i: nat) -> (Seq<char>, Seq<PathEl>) {
    let row = i / cols;
    let col = i % cols;
    let s = tile_size(args);
    (
        "tile_"@ + decimal_text(row) + "_"@ + decimal_text(col),
        tile_path(
            f_add(args.x, f_mul(whole(col), s)),
            f_add(args.y, f_mul(whole(row), s)),
            s,
            style_of(args.style),
            lies_first_way(state_after(seed_of(args), i + 1)),
        ),
    )
}

/// The width of the strokes: 2 by default, and at least a tenth.
pub open spec fn tile_stroke(args: TilingArgs) -> Double {
    f_max(or_default(args.stroke_width, whole(2)), (Double { bits: P1 }))
}

/// The colour of the tiles: a dark blue where none is given.
pub open spec fn tile_color(args: TilingArgs) -> Color {
    match arg_color(args.color) {
        Some(c) => c,
        None => Color {
            r: Double { bits: SHORT_P1 },
            g: Double { bits: SHORT_P1 },
            b: Double { bits: SHORT_P18 },
            a: Double { bits: ONE },
        },
    }
}

/// Triangles are filled, all other tiles are stroked.
pub open spec fn tile_paint(args: TilingArgs) -> TilePaint {
    if style_of(args.style) == TileStyle::Triangles {
        TilePaint::Filled(tile_color(args))
    } else {
        TilePaint::Stroked { color: tile_color(args), width: tile_stroke(args) }
    }
}

fn paint_tiles(args: &TilingArgs, style: TileStyle) -> (r: TilePaint)
    requires
        style == style_of(args.style),
    ensures
        r == tile_paint(*args),
{
    let color = match color_of(&args.color) {
        Some(c) => c,
        None => Color {
            r: Double { bits: SHORT_P1 },
            g: Double { bits: SHORT_P1 },
            b: Double { bits: SHORT_P18 },
            a: Double { bits: ONE },
        },
    };
    match style {
        TileStyle::Triangles => TilePaint::Filled(color),
        _ => TilePaint::Stroked {
            color,
            width: maximum(
                given_or_default(args.stroke_width, from_count(2)),
                Double { bits: P1 },
            ),
        },
    }
}

/// The outline of a box.
pub open spec fn box_path(x: Double, y: Double, w: Double, h: Double) -> Seq<PathEl> {
    seq![
        PathEl::MoveTo(at(x, y)),
        PathEl::LineTo(at(f_add(x, w), y)),
        PathEl::LineTo(at(f_add(x, w), f_add(y, h))),
        PathEl::LineTo(at(x, f_add(y, h))),
        PathEl::ClosePath,
    ]
}

fn draw_box(x: Double, y: Double, w: Double, h: Double) -> (r: Vec<PathEl>)
    ensures
        r@ == box_path(x, y, w, h),
{
    let xs = plus(x, w);
    let ys = plus(y, h);
    let mut out: Vec<PathEl> = Vec::new();
    out.push(PathEl::MoveTo(Point { x, y }));
    out.push(PathEl::LineTo(Point { x: xs, y }));
    out.push(PathEl::LineTo(Point { x: xs, y: ys }));
    out.push(PathEl::LineTo(Point { x, y: ys }));
    out.push(PathEl::ClosePath);
    assert(out@ =~= box_path(x, y, w, h));
    out
}

/// Tiles that cover a box, each lying one of two ways by a pseudo-random number.
/// There is a background only where its colour is given and is one.
pub fn create_truchet_tiling(args: &TilingArgs, active_layer: Option<u128>) -> (r: Tiling)
    ensures
        r.cols == tiles_over(tiling_width(*args), tile_size(*args)),
        r.rows == tiles_over(tiling_height(*args), tile_size(*args)),
        r.cols <= MOST_TILES,
        r.rows <= MOST_TILES,
        r.style == style_of(args.style),
        r.paint == tile_paint(*args),
        r.layer == layer_or_active(args.layer_id, active_layer),
        r.group@ == "Truchet Tiling"@,
        r.group_index == 0,
        match r.background {
            Some(b) => arg_color(args.background) == Some(b.color) && b.name@ == "background"@
                && b.path@ == box_path(
                args.x,
                args.y,
                tiling_width(*args),
                tiling_height(*args),
            ),
            None => arg_color(args.background) is None,
        },
        tile_views(r.tiles@) == Seq::new(
            (r.rows * r.cols) as nat,
            |i: int| tile_at(*args, r.cols as nat, i as nat),
        ),
        r.message@ == "Created Truchet tiling: "@ + decimal_text(r.cols as nat) + "×"@
            + decimal_text(r.rows as nat) + " tiles"@,
{
    let width = maximum(given_or_default(args.width, from_count(200)), from_count(4));
    let height = maximum(given_or_default(args.height, from_count(200)), from_count(4));
    let size = clamped(given_or_default(args.tile_size, from_count(40)), from_count(4), from_count(400));
    let seed: u64 = match args.seed {
        Some(s) => s,
        None => 42,
    };
    let style = match &args.style {
        Some(s) => if same_text(s.as_str(), "diagonals") {
            TileStyle::Diagonals
        } else if same_text(s.as_str(), "triangles") {
            TileStyle::Triangles
        } else {
            TileStyle::Arcs
        },
        None => TileStyle::Arcs,
    };
    proof {
        lemma_positive(4);
        lemma_positive(400);
    }
    let cols: usize = raised_count(divided(width, size), MOST_TILES as u64) as usize;
    let rows: usize = raised_count(divided(height, size), MOST_TILES as u64) as usize;
    assert(rows * cols <= 2500) by (nonlinear_arith)
        requires
            0 <= rows <= 50,
            0 <= cols <= 50,
    ;
    let total: usize = rows * cols;
    let ghost goal = Seq::new(total as nat, |i: int| tile_at(*args, cols as nat, i as nat));
    let mut state: u64 = step(seed);
    let mut tiles: Vec<Tile> = Vec::new();
    let mut i: usize = 0;
    assert(tile_views(tiles@) =~= goal.take(0));
    while i < total
        invariant
            i <= total <= 2500,
            total == rows * cols,
            size == tile_size(*args),
            seed == seed_of(*args),
            style == style_of(args.style),
            state == state_after(seed, i as nat),
            goal == Seq::new(total as nat, |i: int| tile_at(*args, cols as nat, i as nat)),
            tile_views(tiles@) == goal.take(i as int),
        decreases total - i,
    {
        assert(cols > 0) by (nonlinear_arith)
            requires
                rows * cols > 0,
                rows >= 0,
                cols >= 0,
        ;
        state = step(state);
        let first = (state / 0x2_0000_0000) % 2 == 0;
        let row: usize = i / cols;
        let col: usize = i % cols;
        let x = plus(args.x, times(from_count(col as u64), size));
        let y = plus(args.y, times(from_count(row as u64), size));
        let mut v = chars_of("tile_");
        push_all(&mut v, &number_text(row as u64));
        push_str(&mut v, "_");
        push_all(&mut v, &number_text(col as u64));
        let ghost before = tiles@;
        tiles.push(Tile { name: text_of(&v), path: draw_tile(x, y, size, style, first) });
        i += 1;
        assert(tile_views(tiles@) =~= tile_views(before).push(goal[i - 1]));
        assert(goal.take(i as int) =~= goal.take(i - 1).push(goal[i - 1]));
    }
    assert(tile_views(tiles@) =~= goal);
    let mut v = chars_of("Created Truchet tiling: ");
    push_all(&mut v, &number_text(cols as u64));
    push_str(&mut v, "×");
    push_all(&mut v, &number_text(rows as u64));
    push_str(&mut v, " tiles");
    Tiling {
        cols,
        rows,
        style,
        paint: paint_tiles(args, style),
        background: match color_of(&args.background) {
            Some(color) => Some(
                Background {
                    name: "background".to_owned(),
                    color,
                    path: draw_box(args.x, args.y, width, height),
                },
            ),
            None => None,
        },
        tiles,
        layer: find_layer(&args.layer_id, active_layer),
        group: "Truchet Tiling".to_owned(),
        group_index: 0,
        message: text_of(&v),
    }
}


/// The tiles fill the rows of the tiling: the tile of a row and a column stands as many tiles
/// to the right of the left edge as the column says, and as many below the top as the row
/// says, and is named by both.
pub proof fn law_tiles_fill_rows(
    args: TilingArgs,
    cols: nat,
    row: nat,
    col: nat,
    j: nat,
) -> (corner: (Double, Double))
    requires
        col < cols,
        row <= 0x10_0000,
        cols <= 0x10_0000,
        is_plain(args.x, j),
        is_plain(args.y, j),
        is_plain(tile_size(args), j),
    ensures
        exact(corner.0) == exact(args.x) + col * exact(tile_size(args)),
        exact(corner.1) == exact(args.y) + row * exact(tile_size(args)),
        ({
            let i = (row * cols + col) as nat;
            let t = tile_at(args, cols, i);
            &&& t.0 == "tile_"@ + decimal_text(row) + "_"@ + decimal_text(col)
            &&& exists|first: bool|
                t.1 == #[trigger] tile_path(
                    corner.0,
                    corner.1,
                    tile_size(args),
                    style_of(args.style),
                    first,
                )
        }),
{
    let i = (row * cols + col) as nat;
    let s = tile_size(args);
    vstd::arithmetic::div_mod::lemma_fundamental_div_mod_converse(
        i as int,
        cols as int,
        row as int,
        col as int,
    );
    assert(i / cols == row && i % cols == col);
    lemma_tile_start(args.x, col, s, j);
    lemma_tile_start(args.y, row, s, j);
    let corner = (f_add(args.x, f_mul(whole(col), s)), f_add(args.y, f_mul(whole(row), s)));
    assert(tile_at(args, cols, i).1 == tile_path(
        corner.0,
        corner.1,
        s,
        style_of(args.style),
        lies_first_way(state_after(seed_of(args), i + 1)),
    ));
    corner
}

proof fn lemma_tile_start(from: Double, k: nat, s: Double, j: nat)
    requires
        k <= 0x10_0000,
        is_plain(from, j),
        is_plain(s, j),
    ensures
        exact(f_add(from, f_mul(whole(k), s))) == exact(from) + k * exact(s),
{
    lemma_plain(from, j);
    lemma_plain(s, j);
    let kk = k as int;
    assert(kk * 0x4000_0000 <= 0x10_0000 * 0x4000_0000) by (nonlinear_arith)
        requires
            kk <= 0x10_0000,
    ;
    lemma_times(k, s, j, 0x4000_0000);
    lemma_add(from, f_mul(whole(k), s), j, 0x4000_0000, kk * 0x4000_0000);
}

/// The arcs of a tile join the middles of its edges: the one way, the top with the left and
/// the bottom with the right; the other way, the top with the right and the bottom with the
/// left. They leave the edges at right angles.
pub proof fn law_arcs_join_middles(x: Double, y: Double, s: Double, first: bool, j: nat)
    requires
        is_plain(x, j),
        is_plain(y, j),
        is_plain(s, j),
    ensures
        ({
            let p = tile_path(x, y, s, TileStyle::Arcs, first);
            let top = p[0]->MoveTo_0;
            let side = p[1]->CurveTo_2;
            let bottom = p[2]->MoveTo_0;
            let other = p[3]->CurveTo_2;
            &&& p.len() == 4
            &&& 2 * exact(top.x) == 2 * exact(x) + exact(s) && top.y == y
            &&& bottom.x == top.x && exact(bottom.y) == exact(y) + exact(s)
            &&& 2 * exact(side.y) == 2 * exact(y) + exact(s) && other.y == side.y
            &&& first ==> side.x == x && exact(other.x) == exact(x) + exact(s)
            &&& !first ==> other.x == x && exact(side.x) == exact(x) + exact(s)
            &&& p[1]->CurveTo_0.y == top.y && p[1]->CurveTo_1.x == side.x
            &&& p[3]->CurveTo_0.y == bottom.y && p[3]->CurveTo_1.x == other.x
        }),
{
    lemma_tile_edges(x, s, j);
    lemma_tile_edges(y, s, j);
}

proof fn lemma_tile_edges(x: Double, s: Double, j: nat)
    requires
        is_plain(x, j),
        is_plain(s, j),
    ensures
        2 * exact(f_add(x, half(s))) == 2 * exact(x) + exact(s),
        exact(f_add(x, s)) == exact(x) + exact(s),
{
    let h = (j - 1) as nat;
    lemma_plain(x, j);
    lemma_plain(s, j);
    lemma_add(x, s, j, 0x4000_0000, 0x4000_0000);
    lemma_half(s, j, 0x4000_0000);
    lemma_add(x, half(s), h, 0x8000_0000, 0x4000_0000);
}

/// A diagonal joins two opposite corners of its tile, falling the one way and rising the
/// other; a triangle has three of the four corners, and the two ways leave out opposite ones.
pub proof fn law_tiles_use_their_corners(x: Double, y: Double, s: Double, j: nat)
    requires
        is_plain(x, j),
        is_plain(y, j),
        is_plain(s, j),
    ensures
        ({
            let falling = tile_path(x, y, s, TileStyle::Diagonals, true);
            let rising = tile_path(x, y, s, TileStyle::Diagonals, false);
            let upper = tile_path(x, y, s, TileStyle::Triangles, true);
            let lower = tile_path(x, y, s, TileStyle::Triangles, false);
            let nw = falling[0]->MoveTo_0;
            let se = falling[1]->LineTo_0;
            let ne = rising[0]->MoveTo_0;
            let sw = rising[1]->LineTo_0;
            &&& nw == at(x, y)
            &&& exact(se.x) == exact(x) + exact(s) && exact(se.y) == exact(y) + exact(s)
            &&& ne.x == se.x && ne.y == nw.y
            &&& sw.x == nw.x && sw.y == se.y
            &&& upper == seq![
                PathEl::MoveTo(nw),
                PathEl::LineTo(ne),
                PathEl::LineTo(sw),
                PathEl::ClosePath,
            ]
            &&& lower == seq![
                PathEl::MoveTo(ne),
                PathEl::LineTo(se),
                PathEl::LineTo(sw),
                PathEl::ClosePath,
            ]
        }),
{
    lemma_tile_edges(x, s, j);
    lemma_tile_edges(y, s, j);
    let upper = tile_path(x, y, s, TileStyle::Triangles, true);
    let lower = tile_path(x, y, s, TileStyle::Triangles, false);
}

/// A box is drawn round its four corners, as wide and as high as it is.
pub proof fn law_box_path_goes_round(x: Double, y: Double, w: Double, h: Double, j: nat)
    requires
        is_plain(x, j),
        is_plain(y, j),
        is_plain(w, j),
        is_plain(h, j),
    ensures
        ({
            let p = box_path(x, y, w, h);
            let a = p[0]->MoveTo_0;
            let b = p[1]->LineTo_0;
            let c = p[2]->LineTo_0;
            let d = p[3]->LineTo_0;
            &&& p.len() == 5
            &&& a.x == x && a.y == y
            &&& exact(b.x) - exact(a.x) == exact(w) && b.y == a.y
            &&& c.x == b.x && exact(c.y) - exact(b.y) == exact(h)
            &&& d.x == a.x && d.y == c.y
        }),
{
    lemma_tile_edges(x, w, j);
    lemma_tile_edges(y, h, j);
}

/// A tiling of triangles is filled, every other one is stroked.
pub proof fn law_triangles_are_filled(args: TilingArgs)
    ensures
        tile_paint(args) is Filled <==> style_of(args.style) == TileStyle::Triangles,
{
}

} // verus!
