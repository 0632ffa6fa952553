//! Where everything on an AppDirectory page goes.
use crate::app_directory::{ImportedTile, LayoutSpec, TileStyle, TileView};
use crate::bignum::{lemma_power_positive, power};
use crate::double::Double;
use crate::float::{
    at_most, divided, exact, f_add, f_at_most, f_div, f_mul, f_sub, from_count, lemma_positive,
    minus, plus, times, whole,
};
use crate::plan::{
    box_item, items, push_box, push_image, push_text, text_item, Destination, ItemView, PlanItem,
};
use crate::steps::{
    is_plain, lemma_cell_start, lemma_difference_of_steps, lemma_next_column, lemma_next_row,
    lemma_place_bounds, lemma_share_of_steps, lemma_sum_of_steps, lemma_times_steps, steps,
};
use crate::text::{joined, push_copy, texts};
use crate::theme::Theme;
use vstd::prelude::*;

verus! {

/// The group of one tile.
#[verifier::ext_equal]
pub struct TileGroupView {
    pub name: Seq<char>,
    pub tags: Seq<Seq<char>>,
    pub items: Seq<ItemView>,
}

#[derive(Debug)]
pub struct TileGroup {
    pub name: String,
    pub tags: Vec<String>,
    pub items: Vec<PlanItem>,
}

impl View for TileGroup {
    type V = TileGroupView;

    open spec fn view(&self) -> TileGroupView {
        TileGroupView { name: self.name@, tags: texts(self.tags@), items: items(self.items@) }
    }
}

pub open spec fn groups(v: Seq<TileGroup>) -> Seq<TileGroupView> {
    v.map_values(|g: TileGroup| g@)
}

/// How many columns there are: as many as the layout says from 1024 pixels on,
/// two from 640 pixels on, and else one.
pub open spec fn columns(layout: LayoutSpec, width: Double) -> nat {
    if f_at_most(whole(1024), width) {
        layout.desktop_columns as nat
    } else if f_at_most(whole(640), width) {
        2
    } else {
        1
    }
}

pub fn column_count(layout: &LayoutSpec, width: Double) -> (r: usize)
    ensures
        r == columns(*layout, width),
{
    if at_most(from_count(1024), width) {
        layout.desktop_columns
    } else if at_most(from_count(640), width) {
        2
    } else {
        1
    }
}

/// The size of a tile and the gap between two.
#[derive(Debug, Clone, Copy, PartialEq, Eq, Structural)]
pub struct TileFrame {
    pub columns: usize,
    pub width: Double,
    pub height: Double,
    pub gap: Double,
}

/// The tiles of a row share the width, and a tile is as high as its badge with
/// the padding above and below it.
pub open spec fn tile_frame(d: Destination, layout: LayoutSpec, style: TileStyle) -> TileFrame {
    let n = columns(layout, d.width);
    TileFrame {
        columns: n as usize,
        width: f_div(
            f_sub(d.width, f_mul(layout.gap, whole((n - 1) as nat))),
            whole(n),
        ),
        height: f_add(whole(style.badge as nat), f_mul(style.padding, whole(2))),
        gap: layout.gap,
    }
}

pub fn tile_frame_of(d: &Destination, layout: &LayoutSpec, style: &TileStyle) -> (f: TileFrame)
    requires
        0 < layout.desktop_columns,
    ensures
        f == tile_frame(*d, *layout, *style),
{
    let n: usize = column_count(layout, d.width);
    proof {
        lemma_positive(n as nat);
    }
    let width = divided(
        minus(d.width, times(layout.gap, from_count((n - 1) as u64))),
        from_count(n as u64),
    );
    TileFrame {
        columns: n,
        width,
        height: plus(from_count(style.badge as u64), times(style.padding, from_count(2))),
        gap: layout.gap,
    }
}

/// Where tile `i` starts: the tiles fill the rows one after the other.
pub open spec fn tile_corner(d: Destination, f: TileFrame, i: nat) -> (Double, Double) {
    (
        f_add(d.x, f_mul(whole(i % (f.columns as nat)), f_add(f.width, f.gap))),
        f_add(d.y, f_mul(whole(i / (f.columns as nat)), f_add(f.height, f.gap))),
    )
}

/// One tile: its card, its picture, its name and its description.
pub open spec fn tile_items(
    d: Destination,
    f: TileFrame,
    style: TileStyle,
    theme: Theme,
    i: nat,
    t: TileView,
) -> Seq<ItemView> {
    let (x, y) = tile_corner(d, f, i);
    let badge = whole(style.badge as nat);
    let text_x = f_add(f_add(f_add(x, style.padding), badge), style.content_gap);
    let title_y = f_add(f_add(y, style.padding), whole(14));
    seq![
        box_item(
            "Card surface"@,
            x,
            y,
            f.width,
            f.height,
            whole(style.card_radius as nat),
            theme.card@,
            theme.border@,
            whole(style.card_border_width as nat),
        ),
        ItemView::Image {
            index: i,
            x: f_add(x, style.padding),
            y: f_add(y, style.padding),
            size: badge,
        },
        text_item(
            t.name,
            text_x,
            title_y,
            whole(style.title_size as nat),
            style.title_weight,
            theme.foreground@,
        ),
        text_item(
            t.description,
            text_x,
            f_add(f_add(title_y, whole(style.title_size as nat)), whole(5)),
            whole(style.description_size as nat),
            400,
            theme.muted@,
        ),
    ]
}

/// The group of tile `i`.
pub open spec fn tile_group(
    d: Destination,
    f: TileFrame,
    style: TileStyle,
    theme: Theme,
    i: nat,
    t: TileView,
) -> TileGroupView {
    TileGroupView {
        name: "App tile: "@ + t.name,
        tags: seq!["react-role:link"@, "href:"@ + t.url],
        items: tile_items(d, f, style, theme, i, t),
    }
}

/// The groups of all tiles.
pub open spec fn tile_groups(
    d: Destination,
    f: TileFrame,
    style: TileStyle,
    theme: Theme,
    ts: Seq<TileView>,
) -> Seq<TileGroupView> {
    Seq::new(ts.len(), |i: int| tile_group(d, f, style, theme, i as nat, ts[i]))
}

/// How many rows `n` tiles fill.
pub open spec fn row_count(n: nat, columns: nat) -> nat {
    ((n + columns - 1) / columns as int) as nat
}

/// The note below the last row.
pub open spec fn note_item(d: Destination, f: TileFrame, theme: Theme, n: nat) -> ItemView {
    text_item(
        "You'll confirm your Google account once when you open an app."@,
        d.x,
        f_add(
            f_add(
                d.y,
                f_mul(whole(row_count(n, f.columns as nat)), f_add(f.height, f.gap)),
            ),
            whole(10),
        ),
        whole(12),
        400,
        theme.muted@,
    )
}

pub open spec fn tile_views(v: Seq<ImportedTile>) -> Seq<TileView> {
    v.map_values(|t: ImportedTile| t@)
}

fn plan_tile(
    d: &Destination,
    f: &TileFrame,
    style: &TileStyle,
    theme: &Theme,
    i: usize,
    t: &ImportedTile,
) -> (r: TileGroup)
    requires
        f.columns > 0,
    ensures
        r@ == tile_group(*d, *f, *style, *theme, i as nat, t@),
{
    let col: usize = i % f.columns;
    let row: usize = i / f.columns;
    let x = plus(d.x, times(from_count(col as u64), plus(f.width, f.gap)));
    let y = plus(d.y, times(from_count(row as u64), plus(f.height, f.gap)));
    let badge = from_count(style.badge as u64);
    let text_x = plus(plus(plus(x, style.padding), badge), style.content_gap);
    let title_y = plus(plus(y, style.padding), from_count(14));
    let mut out: Vec<PlanItem> = Vec::new();
    assert(items(out@) =~= Seq::<ItemView>::empty());
    push_box(
        &mut out,
        "Card surface",
        x,
        y,
        f.width,
        f.height,
        from_count(style.card_radius as u64),
        theme.card.as_str(),
        theme.border.as_str(),
        from_count(style.card_border_width as u64),
    );
    push_image(&mut out, i, plus(x, style.padding), plus(y, style.padding), badge);
    push_text(
        &mut out,
        t.name.as_str(),
        text_x,
        title_y,
        from_count(style.title_size as u64),
        style.title_weight,
        theme.foreground.as_str(),
    );
    push_text(
        &mut out,
        t.description.as_str(),
        text_x,
        plus(plus(title_y, from_count(style.title_size as u64)), from_count(5)),
        from_count(style.description_size as u64),
        400,
        theme.muted.as_str(),
    );
    let mut tags: Vec<String> = Vec::new();
    assert(texts(tags@) =~= Seq::<Seq<char>>::empty());
    push_copy(&mut tags, "react-role:link");
    let href = joined("href:", t.url.as_str());
    push_copy(&mut tags, href.as_str());
    let r = TileGroup { name: joined("App tile: ", t.name.as_str()), tags, items: out };
    assert(r@ =~= tile_group(*d, *f, *style, *theme, i as nat, t@));
    r
}

/// Plans the tiles and the note below them.
pub fn layout_app_directory(
    tiles: &Vec<ImportedTile>,
    layout: &LayoutSpec,
    style: &TileStyle,
    theme: &Theme,
    d: &Destination,
) -> (r: (Vec<TileGroup>, PlanItem))
    requires
        0 < layout.desktop_columns,
        tiles.len() + layout.desktop_columns < usize::MAX,
    ensures
        groups(r.0@) == tile_groups(
            *d,
            tile_frame(*d, *layout, *style),
            *style,
            *theme,
            tile_views(tiles@),
        ),
        r.1@ == note_item(*d, tile_frame(*d, *layout, *style), *theme, tiles.len() as nat),
{
    let f = tile_frame_of(d, layout, style);
    let mut out: Vec<TileGroup> = Vec::new();
    let ghost goal = tile_groups(*d, f, *style, *theme, tile_views(tiles@));
    let mut i: usize = 0;
    while i < tiles.len()
        invariant
            i <= tiles.len(),
            f.columns > 0,
            goal == tile_groups(*d, f, *style, *theme, tile_views(tiles@)),
            groups(out@) == goal.take(i as int),
        decreases tiles.len() - i,
    {
        let g = plan_tile(d, &f, style, theme, i, &tiles[i]);
        proof {
            assert(goal[i as int] == g@);
            assert(groups(out@.push(g)) =~= goal.take(i as int).push(g@));
            assert(goal.take(i + 1) =~= goal.take(i as int).push(g@));
        }
        out.push(g);
        i += 1;
    }
    assert(goal.take(goal.len() as int) =~= goal);
    let rows: usize = (tiles.len() + f.columns - 1) / f.columns;
    let y = plus(
        plus(d.y, times(from_count(rows as u64), plus(f.height, f.gap))),
        from_count(10),
    );
    let note = PlanItem::Text {
        content: "You'll confirm your Google account once when you open an app.".to_owned(),
        x: d.x,
        y,
        size: from_count(12),
        weight: 400,
        color: theme.muted.as_str().to_owned(),
    };
    (out, note)
}


/// A text of a tile in the title's size, weight and colour.
pub open spec fn is_title(item: ItemView, style: TileStyle, theme: Theme, said: Seq<char>) -> bool {
    item matches ItemView::Text { content, size, weight, color, .. } && content == said && size
        == whole(style.title_size as nat) && weight == style.title_weight && color
        == theme.foreground@
}

/// A text of a tile in the description's size, weight and colour.
pub open spec fn is_description(
    item: ItemView,
    style: TileStyle,
    theme: Theme,
    said: Seq<char>,
) -> bool {
    item matches ItemView::Text { content, size, weight, color, .. } && content == said && size
        == whole(style.description_size as nat) && weight == 400 && color == theme.muted@
}

/// A tile shows its name as its title and its description as the text below it, and nothing
/// else: it has one title and one description, of which the description stands lower, at
/// one distance from the left.
pub proof fn law_tile_shows_name_and_description(
    d: Destination,
    f: TileFrame,
    style: TileStyle,
    theme: Theme,
    ts: Seq<TileView>,
    i: int,
)
    requires
        0 <= i < ts.len(),
    ensures
        ({
            let items = tile_groups(d, f, style, theme, ts)[i].items;
            exists|a: int, b: int|
                0 <= a < items.len() && 0 <= b < items.len() && a != b && #[trigger] is_title(
                    items[a],
                    style,
                    theme,
                    ts[i].name,
                ) && #[trigger] is_description(items[b], style, theme, ts[i].description)
                    && items[a]->Text_x == items[b]->Text_x && items[b]->Text_y == f_add(
                    f_add(items[a]->Text_y, items[a]->Text_size),
                    whole(5),
                ) && forall|c: int|
                    0 <= c < items.len() && (#[trigger] items[c]) is Text ==> c == a || c == b
        }),
{
    let items = tile_groups(d, f, style, theme, ts)[i].items;
    assert(is_title(items[2], style, theme, ts[i].name));
    assert(is_description(items[3], style, theme, ts[i].description));
}

/// There is a group for each tile, in their order: it is named after the tile, leads to the
/// tile's own address, and shows the picture of this tile.
pub proof fn law_groups_follow_tiles(
    d: Destination,
    f: TileFrame,
    style: TileStyle,
    theme: Theme,
    ts: Seq<TileView>,
    i: int,
)
    requires
        0 <= i < ts.len(),
    ensures
        ({
            let gs = tile_groups(d, f, style, theme, ts);
            &&& gs.len() == ts.len()
            &&& gs[i].name == "App tile: "@ + ts[i].name
            &&& gs[i].tags.contains("href:"@ + ts[i].url)
            &&& exists|a: int|
                0 <= a < gs[i].items.len() && (#[trigger] gs[i].items[a] matches ItemView::Image {
                    index,
                    ..
                } && index == i)
        }),
{
    let gs = tile_groups(d, f, style, theme, ts);
    assert(gs[i].tags[1] == "href:"@ + ts[i].url);
    assert(gs[i].items[1] is Image);
}

/// What tiles are laid out with is in whole numbers of steps.
pub open spec fn is_plain_frame(d: Destination, f: TileFrame, j: nat) -> bool {
    is_plain(d.x, j) && is_plain(d.y, j) && is_plain(f.width, j) && is_plain(f.height, j)
        && is_plain(f.gap, j) && f.columns > 0
}

/// The cards of the tiles fill the rows one after the other: the next card of a row stands
/// a gap to the right of the end of the one before it, at its height, and the one in the
/// next row a gap below its end, at its left edge. The first stands at the corner of the
/// page. All have one size.
pub proof fn law_cards_fill_rows(
    d: Destination,
    f: TileFrame,
    style: TileStyle,
    theme: Theme,
    ts: Seq<TileView>,
    i: int,
    j: nat,
)
    requires
        0 <= i < ts.len() <= 0x10_0000,
        is_plain_frame(d, f, j),
    ensures
        ({
            let gs = tile_groups(d, f, style, theme, ts);
            let a = gs[i].items[0];
            let columns = f.columns as nat;
            &&& a is Rect && a->Rect_w == f.width && a->Rect_h == f.height
            &&& i == 0 ==> exact(a->Rect_x) == exact(d.x) && exact(a->Rect_y) == exact(d.y)
            &&& i + 1 < ts.len() && (i as nat + 1) % columns != 0 ==> exact(
                gs[i + 1].items[0]->Rect_x,
            ) == exact(a->Rect_x) + exact(f.width) + exact(f.gap) && gs[i + 1].items[0]->Rect_y
                == a->Rect_y
            &&& i + columns < ts.len() ==> gs[i + columns].items[0]->Rect_x == a->Rect_x && exact(
                gs[i + columns].items[0]->Rect_y,
            ) == exact(a->Rect_y) + exact(f.height) + exact(f.gap)
        }),
{
    let columns = f.columns as nat;
    lemma_place_bounds(i as nat, columns);
    let col = i as nat % columns;
    let row = i as nat / columns;
    lemma_cell_start(d.x, col, f.width, f.gap, j);
    lemma_cell_start(d.y, row, f.height, f.gap, j);
    let w = exact(f.width) + exact(f.gap);
    let h = exact(f.height) + exact(f.gap);
    if i == 0 {
        assert(0 * w == 0 && 0 * h == 0);
    }
    if i + 1 < ts.len() && (i as nat + 1) % columns != 0 {
        lemma_next_column(i as nat, columns);
        lemma_place_bounds((i + 1) as nat, columns);
        lemma_cell_start(d.x, col + 1, f.width, f.gap, j);
        assert((col + 1) * w == col * w + w) by (nonlinear_arith);
    }
    if i + columns < ts.len() {
        lemma_next_row(i as nat, columns);
        lemma_place_bounds(i as nat + columns, columns);
        lemma_cell_start(d.y, row + 1, f.height, f.gap, j);
        assert((row + 1) * h == row * h + h) by (nonlinear_arith);
    }
}

/// The picture of a tile stands the padding inside the corner of its card, and the texts
/// behind it.
pub proof fn law_tile_is_padded(
    d: Destination,
    f: TileFrame,
    style: TileStyle,
    theme: Theme,
    ts: Seq<TileView>,
    i: int,
)
    requires
        0 <= i < ts.len(),
    ensures
        ({
            let items = tile_groups(d, f, style, theme, ts)[i].items;
            let card = items[0];
            exists|a: int, b: int|
                0 <= a < items.len() && 0 <= b < items.len() && (#[trigger] items[a]) is Image && (
                #[trigger] items[b]) is Text && items[a]->Image_x == f_add(
                    card->Rect_x,
                    style.padding,
                ) && items[a]->Image_y == f_add(card->Rect_y, style.padding)
                    && items[a]->Image_size == whole(style.badge as nat) && items[b]->Text_x
                    == f_add(
                    f_add(items[a]->Image_x, items[a]->Image_size),
                    style.content_gap,
                )
        }),
{
    let items = tile_groups(d, f, style, theme, ts)[i].items;
    assert(items[1] is Image && items[2] is Text);
}

/// The cards of a row and the gaps between them fill the width of the page, wherever it
/// divides evenly, and a card is as high as its picture and the padding above and below.
pub proof fn law_row_fills_the_page(
    d: Destination,
    layout: LayoutSpec,
    style: TileStyle,
    n: int,
    j: nat,
)
    requires
        is_plain(d.width, j),
        is_plain(layout.gap, j),
        is_plain(style.padding, j),
        is_plain(whole(style.badge as nat), j),
        0 < columns(layout, d.width) <= 0x10_0000,
        -0x4000_0000 <= n <= 0x4000_0000,
        exact(d.width) - (columns(layout, d.width) - 1) * exact(layout.gap) == columns(
            layout,
            d.width,
        ) * (n * power(2, j)),
    ensures
        ({
            let f = tile_frame(d, layout, style);
            &&& f.columns * exact(f.width) + (f.columns - 1) * exact(f.gap) == exact(d.width)
            &&& exact(f.height) == exact(whole(style.badge as nat)) + 2 * exact(style.padding)
            &&& f.gap == layout.gap
        }),
{
    let c = columns(layout, d.width);
    let f = tile_frame(d, layout, style);
    let k = (c - 1) as nat;
    let p = power(2, j);
    let g = steps(layout.gap, j);
    let w = steps(d.width, j);
    let kk = k as int;
    assert(-0x10_0000 * 0x4000_0000 <= kk * g <= 0x10_0000 * 0x4000_0000) by (nonlinear_arith)
        requires
            0 <= kk <= 0x10_0000,
            -0x4000_0000 <= g <= 0x4000_0000,
    ;
    lemma_times_steps(k, layout.gap, j, g);
    lemma_difference_of_steps(d.width, f_mul(layout.gap, whole(k)), j, w, kk * g);
    lemma_power_positive(2, j);
    assert(w - kk * g == c * n) by (nonlinear_arith)
        requires
            w * p - kk * (g * p) == c * (n * p),
            p > 0,
    ;
    lemma_share_of_steps(f_sub(d.width, f_mul(layout.gap, whole(k))), c, j, n);
    let b = steps(whole(style.badge as nat), j);
    let q = steps(style.padding, j);
    lemma_times_steps(2, style.padding, j, q);
    lemma_sum_of_steps(whole(style.badge as nat), f_mul(style.padding, whole(2)), j, b, 2 * q);
    assert((b + 2 * q) * p == b * p + 2 * (q * p)) by (nonlinear_arith);
}

/// The note stands below the last row of cards: no card reaches down to it.
pub proof fn law_note_is_below_the_cards(
    d: Destination,
    f: TileFrame,
    style: TileStyle,
    theme: Theme,
    ts: Seq<TileView>,
    i: int,
    j: nat,
)
    requires
        0 <= i < ts.len() <= 0x10_0000,
        is_plain_frame(d, f, j),
        is_plain(whole(10), j),
        f.columns <= 0x10_0000,
        exact(f.gap) >= 0,
        exact(f.height) >= 0,
    ensures
        ({
            let card = tile_groups(d, f, style, theme, ts)[i].items[0];
            let note = note_item(d, f, theme, ts.len());
            &&& note is Text
            &&& exact(note->Text_y) >= exact(card->Rect_y) + exact(f.height) + exact(whole(10))
            &&& note->Text_x == d.x
        }),
{
    let c = f.columns as nat;
    let row = i as nat / c;
    let rows = row_count(ts.len(), c);
    lemma_place_bounds(i as nat, c);
    lemma_cell_start(d.y, row, f.height, f.gap, j);
    let n = ts.len();
    let total = (n + c - 1) as nat;
    lemma_place_bounds(total, c);
    vstd::arithmetic::div_mod::lemma_fundamental_div_mod(total as int, c as int);
    vstd::arithmetic::div_mod::lemma_mod_bound(total as int, c as int);
    vstd::arithmetic::div_mod::lemma_fundamental_div_mod(i as int, c as int);
    vstd::arithmetic::div_mod::lemma_mod_bound(i as int, c as int);
    vstd::arithmetic::div_mod::lemma_div_pos_is_pos(total as int, c as int);
    let q = total as int / c as int;
    let rem = total as int % c as int;
    let r0 = i as int % c as int;
    assert(rows == q);
    assert(row + 1 <= rows) by (nonlinear_arith)
        requires
            i == c * row + r0,
            0 <= r0,
            total == c * q + rem,
            rem <= c - 1,
            i + 1 <= n,
            total == n + c - 1,
            rows == q,
            c > 0,
    ;
    assert(q <= n) by (nonlinear_arith)
        requires
            total == c * q + rem,
            rem >= 0,
            total == n + c - 1,
            n >= 1,
            c >= 1,
            q >= 0,
    ;
    lemma_cell_start(d.y, rows, f.height, f.gap, j);
    let y = f_add(d.y, f_mul(whole(rows), f_add(f.height, f.gap)));
    let h = steps(f.height, j) + steps(f.gap, j);
    let m = steps(d.y, j) + rows * h;
    let k = rows as int;
    assert(-0x10_0000 * 0x8000_0000 <= k * h <= 0x10_0000 * 0x8000_0000) by (nonlinear_arith)
        requires
            0 <= k <= 0x10_0000,
            -0x8000_0000 <= h <= 0x8000_0000,
    ;
    lemma_sum_of_steps(y, whole(10), j, m, steps(whole(10), j));
    let p = power(2, j);
    let t = steps(whole(10), j);
    assert((m + t) * p == m * p + t * p) by (nonlinear_arith);
    let step = exact(f.height) + exact(f.gap);
    assert(rows * step >= row * step + step) by (nonlinear_arith)
        requires
            rows >= row + 1,
            step >= 0,
    ;
}

} // verus!
