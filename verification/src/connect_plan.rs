//! Where everything on a ConnectPage goes.
use crate::bignum::lemma_power_positive;
use crate::connect_page::{
    canvas_height, card_height, connect_page_canvas_height, connect_page_card_height, ConnectTexts,
    ImportedSocialLink, LinkView, TextsView,
};
use crate::double::Double;
use crate::float::{
    exact, f_add, f_max, f_min, f_mul, f_same, f_sub, from_count, half, halved, maximum, minimum,
    minus, one_units, plus, same, times, whole,
};
use crate::plan::{
    box_item, items, push_box, push_icon, push_text, text_item, Destination, ItemView, PlanItem,
};
use crate::steps::{
    is_plain, lemma_add, lemma_half, lemma_in_halves, lemma_order, lemma_plain, lemma_sub,
    lemma_times, lemma_whole_within, within,
};
use crate::text::{joined, push_copy, texts};
use vstd::prelude::*;

verus! {

/// The measures of a page.
#[derive(Debug, Clone, Copy, PartialEq, Eq, Structural)]
pub struct PageFrame {
    pub content_width: Double,
    pub content_x: Double,
    pub card_width: Double,
    pub card_y: Double,
    pub card_height: Double,
    pub canvas_height: Double,
    pub right: Double,
    pub bottom: Double,
}

/// The content is at most 768 pixels wide and centred, with 32 pixels left on
/// either side; two cards share it, 24 pixels apart.
pub open spec fn page_frame(d: Destination, links: nat) -> PageFrame {
    let content_width = f_min(f_sub(d.width, whole(64)), whole(768));
    let card = card_height(d.height, links);
    let canvas = canvas_height(d.height, card);
    PageFrame {
        content_width,
        content_x: f_add(d.x, half(f_sub(d.width, content_width))),
        card_width: half(f_sub(content_width, whole(24))),
        card_y: f_add(d.y, whole(188)),
        card_height: card,
        canvas_height: canvas,
        right: f_add(d.x, d.width),
        bottom: f_add(d.y, canvas),
    }
}

pub fn frame_of(d: &Destination, links: usize) -> (f: PageFrame)
    ensures
        f == page_frame(*d, links as nat),
{
    let content_width = minimum(minus(d.width, from_count(64)), from_count(768));
    let card = connect_page_card_height(d.height, links);
    let canvas = connect_page_canvas_height(d.height, card);
    PageFrame {
        content_width,
        content_x: plus(d.x, halved(minus(d.width, content_width))),
        card_width: halved(minus(content_width, from_count(24))),
        card_y: plus(d.y, from_count(188)),
        card_height: card,
        canvas_height: canvas,
        right: plus(d.x, d.width),
        bottom: plus(d.y, canvas),
    }
}

/// The left edge of the right card.
pub open spec fn right_card_x(f: PageFrame) -> Double {
    f_add(f_add(f.content_x, f.card_width), whole(24))
}

/// The background and the two titles.
pub open spec fn heading_items(d: Destination, f: PageFrame, t: TextsView) -> Seq<ItemView> {
    seq![
        box_item(
            "One Day Dance page background"@,
            d.x,
            d.y,
            d.width,
            f.canvas_height,
            whole(0),
            "#f2f2f3"@,
            "#f2f2f3"@,
            whole(0),
        ),
        text_item(t.title, f.content_x, f_add(d.y, whole(64)), whole(36), 700, "#171717"@),
        text_item(t.subtitle, f.content_x, f_add(d.y, whole(120)), whole(16), 400, "#6b7280"@),
    ]
}

/// The two empty cards.
pub open spec fn card_items(f: PageFrame) -> Seq<ItemView> {
    seq![
        box_item(
            "Join mailing list card"@,
            f.content_x,
            f.card_y,
            f.card_width,
            f.card_height,
            whole(12),
            "#ffffff"@,
            "#d9d9de"@,
            whole(1),
        ),
        box_item(
            "Follow along card"@,
            right_card_x(f),
            f.card_y,
            f.card_width,
            f.card_height,
            whole(12),
            "#ffffff"@,
            "#d9d9de"@,
            whole(1),
        ),
    ]
}

/// What stands on the left card: its texts, the field and the button.
pub open spec fn mailing_items(f: PageFrame, t: TextsView) -> Seq<ItemView> {
    let input_y = f_add(f.card_y, whole(126));
    seq![
        text_item(
            t.mailing_title,
            f_add(f.content_x, whole(24)),
            f_add(f.card_y, whole(32)),
            whole(18),
            600,
            "#171717"@,
        ),
        text_item(
            t.mailing_body,
            f_add(f.content_x, whole(24)),
            f_add(f.card_y, whole(68)),
            whole(14),
            400,
            "#6b7280"@,
        ),
        box_item(
            "Newsletter email input (static fallback)"@,
            f_add(f.content_x, whole(24)),
            input_y,
            f_sub(f.card_width, whole(48)),
            whole(42),
            whole(10),
            "#f2f2f3"@,
            "#d9d9de"@,
            whole(1),
        ),
        text_item(
            "Email address"@,
            f_add(f.content_x, whole(38)),
            f_add(input_y, whole(13)),
            whole(14),
            400,
            "#9b9ba3"@,
        ),
        box_item(
            "Subscribe button (static fallback)"@,
            f_add(f.content_x, whole(24)),
            f_add(input_y, whole(62)),
            f_sub(f.card_width, whole(48)),
            whole(46),
            whole(10),
            "#ff9d76"@,
            "#ff9d76"@,
            whole(0),
        ),
        text_item(
            "Subscribe"@,
            f_sub(f_add(f.content_x, half(f.card_width)), whole(32)),
            f_add(input_y, whole(76)),
            whole(15),
            600,
            "#171717"@,
        ),
    ]
}

/// The texts on the right card.
pub open spec fn follow_items(f: PageFrame, t: TextsView) -> Seq<ItemView> {
    seq![
        text_item(
            t.follow_title,
            f_add(right_card_x(f), whole(24)),
            f_add(f.card_y, whole(32)),
            whole(18),
            600,
            "#171717"@,
        ),
        text_item(
            t.follow_body,
            f_add(right_card_x(f), whole(24)),
            f_add(f.card_y, whole(68)),
            whole(14),
            400,
            "#6b7280"@,
        ),
    ]
}

/// The top of the row of link `i`.
pub open spec fn row_y(f: PageFrame, i: nat) -> Double {
    f_add(f_add(f.card_y, whole(116)), f_mul(whole(i), whole(70)))
}

/// The row of link `i`: a pill, the icon, the label and the handle.
pub open spec fn row_items(f: PageFrame, i: nat, l: LinkView) -> Seq<ItemView> {
    let x = f_add(right_card_x(f), whole(24));
    let y = row_y(f, i);
    seq![
        box_item(
            "Social link: "@ + l.label,
            x,
            y,
            f_sub(f.card_width, whole(48)),
            whole(54),
            whole(27),
            "#f2f2f3"@,
            "#e4e4e7"@,
            whole(1),
        ),
        ItemView::Icon {
            name: l.icon,
            x: f_add(x, whole(9)),
            y: f_add(y, whole(9)),
            size: whole(36),
            color: "#171717"@,
        },
        text_item(l.label, f_add(x, whole(58)), f_add(y, whole(13)), whole(15), 600, "#171717"@),
        text_item(l.handle, f_add(x, whole(58)), f_add(y, whole(33)), whole(12), 400, "#6b7280"@),
    ]
}

/// The rows of all links.
pub open spec fn all_rows(f: PageFrame, links: Seq<LinkView>) -> Seq<ItemView>
    decreases links.len(),
{
    if links.len() == 0 {
        Seq::empty()
    } else {
        all_rows(f, links.drop_last()) + row_items(f, (links.len() - 1) as nat, links.last())
    }
}

/// Everything on the page, from back to front.
pub open spec fn page_items(d: Destination, t: TextsView, links: Seq<LinkView>) -> Seq<ItemView> {
    let f = page_frame(d, links.len());
    heading_items(d, f, t) + card_items(f) + mailing_items(f, t) + follow_items(f, t) + all_rows(
        f,
        links,
    )
}

pub open spec fn link_views(v: Seq<ImportedSocialLink>) -> Seq<LinkView> {
    v.map_values(|l: ImportedSocialLink| l@)
}

fn push_heading(out: &mut Vec<PlanItem>, d: &Destination, f: &PageFrame, t: &ConnectTexts)
    ensures
        items(final(out)@) == items(old(out)@) + heading_items(*d, *f, t@),
{
    push_box(
        out,
        "One Day Dance page background",
        d.x,
        d.y,
        d.width,
        f.canvas_height,
        from_count(0),
        "#f2f2f3",
        "#f2f2f3",
        from_count(0),
    );
    push_text(
        out,
        t.title.as_str(),
        f.content_x,
        plus(d.y, from_count(64)),
        from_count(36),
        700,
        "#171717",
    );
    push_text(
        out,
        t.subtitle.as_str(),
        f.content_x,
        plus(d.y, from_count(120)),
        from_count(16),
        400,
        "#6b7280",
    );
    assert(items(out@) =~= items(old(out)@) + heading_items(*d, *f, t@));
}

fn right_x(f: &PageFrame) -> (r: Double)
    ensures
        r == right_card_x(*f),
{
    plus(plus(f.content_x, f.card_width), from_count(24))
}

fn push_cards(out: &mut Vec<PlanItem>, f: &PageFrame)
    ensures
        items(final(out)@) == items(old(out)@) + card_items(*f),
{
    push_box(
        out,
        "Join mailing list card",
        f.content_x,
        f.card_y,
        f.card_width,
        f.card_height,
        from_count(12),
        "#ffffff",
        "#d9d9de",
        from_count(1),
    );
    push_box(
        out,
        "Follow along card",
        right_x(f),
        f.card_y,
        f.card_width,
        f.card_height,
        from_count(12),
        "#ffffff",
        "#d9d9de",
        from_count(1),
    );
    assert(items(out@) =~= items(old(out)@) + card_items(*f));
}

fn push_mailing(out: &mut Vec<PlanItem>, f: &PageFrame, t: &ConnectTexts)
    ensures
        items(final(out)@) == items(old(out)@) + mailing_items(*f, t@),
{
    let input_y = plus(f.card_y, from_count(126));
    let x = plus(f.content_x, from_count(24));
    let width = minus(f.card_width, from_count(48));
    push_text(
        out,
        t.mailing_title.as_str(),
        x,
        plus(f.card_y, from_count(32)),
        from_count(18),
        600,
        "#171717",
    );
    push_text(
        out,
        t.mailing_body.as_str(),
        x,
        plus(f.card_y, from_count(68)),
        from_count(14),
        400,
        "#6b7280",
    );
    push_box(
        out,
        "Newsletter email input (static fallback)",
        x,
        input_y,
        width,
        from_count(42),
        from_count(10),
        "#f2f2f3",
        "#d9d9de",
        from_count(1),
    );
    push_text(
        out,
        "Email address",
        plus(f.content_x, from_count(38)),
        plus(input_y, from_count(13)),
        from_count(14),
        400,
        "#9b9ba3",
    );
    push_box(
        out,
        "Subscribe button (static fallback)",
        x,
        plus(input_y, from_count(62)),
        width,
        from_count(46),
        from_count(10),
        "#ff9d76",
        "#ff9d76",
        from_count(0),
    );
    push_text(
        out,
        "Subscribe",
        minus(plus(f.content_x, halved(f.card_width)), from_count(32)),
        plus(input_y, from_count(76)),
        from_count(15),
        600,
        "#171717",
    );
    assert(items(out@) =~= items(old(out)@) + mailing_items(*f, t@));
}

fn push_follow(out: &mut Vec<PlanItem>, f: &PageFrame, t: &ConnectTexts)
    ensures
        items(final(out)@) == items(old(out)@) + follow_items(*f, t@),
{
    let x = plus(right_x(f), from_count(24));
    push_text(
        out,
        t.follow_title.as_str(),
        x,
        plus(f.card_y, from_count(32)),
        from_count(18),
        600,
        "#171717",
    );
    push_text(
        out,
        t.follow_body.as_str(),
        x,
        plus(f.card_y, from_count(68)),
        from_count(14),
        400,
        "#6b7280",
    );
    assert(items(out@) =~= items(old(out)@) + follow_items(*f, t@));
}

fn push_row(out: &mut Vec<PlanItem>, f: &PageFrame, i: usize, l: &ImportedSocialLink)
    ensures
        items(final(out)@) == items(old(out)@) + row_items(*f, i as nat, l@),
{
    let x = plus(right_x(f), from_count(24));
    let y = plus(plus(f.card_y, from_count(116)), times(from_count(i as u64), from_count(70)));
    let name = joined("Social link: ", l.label.as_str());
    push_box(
        out,
        name.as_str(),
        x,
        y,
        minus(f.card_width, from_count(48)),
        from_count(54),
        from_count(27),
        "#f2f2f3",
        "#e4e4e7",
        from_count(1),
    );
    push_icon(
        out,
        l.icon.as_str(),
        plus(x, from_count(9)),
        plus(y, from_count(9)),
        from_count(36),
        "#171717",
    );
    push_text(
        out,
        l.label.as_str(),
        plus(x, from_count(58)),
        plus(y, from_count(13)),
        from_count(15),
        600,
        "#171717",
    );
    push_text(
        out,
        l.handle.as_str(),
        plus(x, from_count(58)),
        plus(y, from_count(33)),
        from_count(12),
        400,
        "#6b7280",
    );
    assert(items(out@) =~= items(old(out)@) + row_items(*f, i as nat, l@));
}

/// Plans a ConnectPage.
pub fn plan_connect_page(
    d: &Destination,
    t: &ConnectTexts,
    links: &Vec<ImportedSocialLink>,
) -> (r: Vec<PlanItem>)
    ensures
        items(r@) == page_items(*d, t@, link_views(links@)),
{
    let f = frame_of(d, links.len());
    let mut out: Vec<PlanItem> = Vec::new();
    assert(items(out@) =~= Seq::<ItemView>::empty());
    push_heading(&mut out, d, &f, t);
    push_cards(&mut out, &f);
    push_mailing(&mut out, &f, t);
    push_follow(&mut out, &f, t);
    let ghost start = items(out@);
    let ghost views = link_views(links@);
    assert(start =~= heading_items(*d, f, t@) + card_items(f) + mailing_items(f, t@)
        + follow_items(f, t@));
    assert(views.take(0) =~= Seq::<LinkView>::empty());
    let mut i: usize = 0;
    while i < links.len()
        invariant
            i <= links.len(),
            views == link_views(links@),
            items(out@) == start + all_rows(f, views.take(i as int)),
        decreases links.len() - i,
    {
        push_row(&mut out, &f, i, &links[i]);
        proof {
            assert(views.take(i + 1).drop_last() =~= views.take(i as int));
            assert(views.take(i + 1).last() == links@[i as int]@);
        }
        i += 1;
    }
    assert(views.take(views.len() as int) =~= views);
    out
}

/// The tags of the page's group.
pub open spec fn page_tags(links: Seq<LinkView>) -> Seq<Seq<char>> {
    seq![
        "react-role:page"@,
        "source-export:ConnectPage"@,
        "source-fallback:SlotImage"@,
        "source-fallback:NewsletterSignupWidget"@,
    ] + links.map_values(|l: LinkView| "href:"@ + l.href)
}

/// The texts that a reader of the page sees, in reading order.
pub open spec fn visible_texts(t: TextsView, links: Seq<LinkView>) -> Seq<Seq<char>> {
    seq![t.title, t.subtitle, t.mailing_title, t.mailing_body, t.follow_title, t.follow_body]
        + link_texts(links)
}

/// The label and the handle of each link.
pub open spec fn link_texts(links: Seq<LinkView>) -> Seq<Seq<char>>
    decreases links.len(),
{
    if links.len() == 0 {
        Seq::empty()
    } else {
        link_texts(links.drop_last()).push(links.last().label).push(links.last().handle)
    }
}

/// The tags of the page's group.
pub fn connect_page_tags(links: &Vec<ImportedSocialLink>) -> (r: Vec<String>)
    ensures
        texts(r@) == page_tags(link_views(links@)),
{
    let mut out: Vec<String> = Vec::new();
    assert(texts(out@) =~= Seq::<Seq<char>>::empty());
    push_copy(&mut out, "react-role:page");
    push_copy(&mut out, "source-export:ConnectPage");
    push_copy(&mut out, "source-fallback:SlotImage");
    push_copy(&mut out, "source-fallback:NewsletterSignupWidget");
    let ghost start = texts(out@);
    let ghost tags = link_views(links@).map_values(|l: LinkView| "href:"@ + l.href);
    let mut i: usize = 0;
    while i < links.len()
        invariant
            i <= links.len(),
            tags == link_views(links@).map_values(|l: LinkView| "href:"@ + l.href),
            texts(out@) == start + tags.take(i as int),
        decreases links.len() - i,
    {
        let tag = joined("href:", links[i].href.as_str());
        push_copy(&mut out, tag.as_str());
        assert(tags.take(i + 1) =~= tags.take(i as int).push(tag@));
        i += 1;
    }
    assert(tags.take(tags.len() as int) =~= tags);
    out
}

/// The visible texts of the page.
pub fn connect_visible_texts(t: &ConnectTexts, links: &Vec<ImportedSocialLink>) -> (r: Vec<String>)
    ensures
        texts(r@) == visible_texts(t@, link_views(links@)),
{
    let mut out: Vec<String> = Vec::new();
    assert(texts(out@) =~= Seq::<Seq<char>>::empty());
    push_copy(&mut out, t.title.as_str());
    push_copy(&mut out, t.subtitle.as_str());
    push_copy(&mut out, t.mailing_title.as_str());
    push_copy(&mut out, t.mailing_body.as_str());
    push_copy(&mut out, t.follow_title.as_str());
    push_copy(&mut out, t.follow_body.as_str());
    let ghost start = texts(out@);
    let ghost views = link_views(links@);
    assert(views.take(0) =~= Seq::<LinkView>::empty());
    let mut i: usize = 0;
    while i < links.len()
        invariant
            i <= links.len(),
            views == link_views(links@),
            texts(out@) == start + link_texts(views.take(i as int)),
        decreases links.len() - i,
    {
        push_copy(&mut out, links[i].label.as_str());
        push_copy(&mut out, links[i].handle.as_str());
        proof {
            assert(views.take(i + 1).drop_last() =~= views.take(i as int));
            assert(views.take(i + 1).last() == links@[i as int]@);
        }
        i += 1;
    }
    assert(views.take(views.len() as int) =~= views);
    out
}

/// An artboard of the document.
#[derive(Debug, Clone, Copy, PartialEq, Eq, Structural)]
pub struct Artboard {
    pub id: u128,
    pub x: Double,
    pub y: Double,
    pub width: Double,
    pub height: Double,
}

/// A board that reaches from where it or the page starts to where it or the page
/// ends.
pub open spec fn grown_board(b: Artboard, d: Destination, f: PageFrame) -> Artboard {
    let x = f_min(b.x, d.x);
    let y = f_min(b.y, d.y);
    Artboard {
        id: b.id,
        x,
        y,
        width: f_sub(f_max(f_add(b.x, b.width), f.right), x),
        height: f_sub(f_max(f_add(b.y, b.height), f.bottom), y),
    }
}

/// The first board with the id `id` grows, and no other.
pub open spec fn grown_boards(
    boards: Seq<Artboard>,
    id: Option<u128>,
    d: Destination,
    f: PageFrame,
) -> Seq<Artboard>
    decreases boards.len(),
{
    match id {
        None => boards,
        Some(i) => if boards.len() == 0 {
            boards
        } else if boards[0].id == i {
            seq![grown_board(boards[0], d, f)] + boards.skip(1)
        } else {
            seq![boards[0]] + grown_boards(boards.skip(1), id, d, f)
        },
    }
}

/// The size of the document that also holds the page.
pub open spec fn grown_size(size: (Double, Double), f: PageFrame) -> (Double, Double) {
    (f_max(size.0, f.right), f_max(size.1, f.bottom))
}

pub open spec fn same_board(a: Artboard, b: Artboard) -> bool {
    a.id == b.id && f_same(a.x, b.x) && f_same(a.y, b.y) && f_same(a.width, b.width) && f_same(
        a.height,
        b.height,
    )
}

/// Equal as lists of numbers.
pub open spec fn same_boards(a: Seq<Artboard>, b: Seq<Artboard>) -> bool {
    a.len() == b.len() && forall|i: int| 0 <= i < a.len() ==> same_board(a[i], #[trigger] b[i])
}

/// How the document grows so that it holds a page: the new size and whether it
/// is new, the new boards and whether any is new.
#[derive(Debug)]
pub struct Growth {
    pub width: Double,
    pub height: Double,
    pub resize: bool,
    pub boards: Vec<Artboard>,
    pub set_boards: bool,
}

fn first_with_id(boards: &Vec<Artboard>, id: u128) -> (r: Option<usize>)
    ensures
        match r {
            Some(k) => k < boards.len() && boards@[k as int].id == id && forall|j: int|
                0 <= j < k ==> boards@[j].id != id,
            None => forall|j: int| 0 <= j < boards.len() ==> boards@[j].id != id,
        },
{
    let mut i: usize = 0;
    while i < boards.len()
        invariant
            i <= boards.len(),
            forall|j: int| 0 <= j < i ==> boards@[j].id != id,
        decreases boards.len() - i,
    {
        if boards[i].id == id {
            return Some(i);
        }
        i += 1;
    }
    None
}

proof fn lemma_grown(boards: Seq<Artboard>, id: u128, d: Destination, f: PageFrame, k: int)
    requires
        0 <= k <= boards.len(),
        forall|j: int| 0 <= j < k ==> boards[j].id != id,
        k < boards.len() ==> boards[k].id == id,
    ensures
        grown_boards(boards, Some(id), d, f) == if k < boards.len() {
            boards.update(k, grown_board(boards[k], d, f))
        } else {
            boards
        },
    decreases boards.len(),
{
    if boards.len() > 0 {
        if k == 0 {
            assert(seq![grown_board(boards[0], d, f)] + boards.skip(1) =~= boards.update(
                0,
                grown_board(boards[0], d, f),
            ));
        } else {
            let rest = boards.skip(1);
            assert forall|j: int| 0 <= j < k - 1 implies rest[j].id != id by {
                assert(rest[j] == boards[j + 1]);
            }
            lemma_grown(rest, id, d, f, k - 1);
            if k < boards.len() {
                assert(seq![boards[0]] + rest.update(k - 1, grown_board(boards[k], d, f))
                    =~= boards.update(k, grown_board(boards[k], d, f)));
            } else {
                assert(seq![boards[0]] + rest =~= boards);
            }
        }
    }
}

fn boards_differ(a: &Vec<Artboard>, b: &Vec<Artboard>) -> (r: bool)
    ensures
        r == !same_boards(a@, b@),
{
    if a.len() != b.len() {
        return true;
    }
    let mut i: usize = 0;
    while i < a.len()
        invariant
            i <= a.len(),
            a.len() == b.len(),
            forall|j: int| 0 <= j < i ==> same_board(a@[j], #[trigger] b@[j]),
        decreases a.len() - i,
    {
        let p = a[i];
        let q = b[i];
        if !(p.id == q.id && same(p.x, q.x) && same(p.y, q.y) && same(p.width, q.width) && same(
            p.height,
            q.height,
        )) {
            assert(!same_board(a@[i as int], b@[i as int]));
            return true;
        }
        i += 1;
    }
    false
}

/// How the document grows for a page: the size that holds it, and the active
/// artboard stretched over it.
pub fn grow_document(
    size: (Double, Double),
    boards: &Vec<Artboard>,
    active: Option<u128>,
    d: &Destination,
    f: &PageFrame,
) -> (g: Growth)
    ensures
        (g.width, g.height) == grown_size(size, *f),
        g.resize == !(f_same(g.width, size.0) && f_same(g.height, size.1)),
        g.boards@ == grown_boards(boards@, active, *d, *f),
        g.set_boards == !same_boards(g.boards@, boards@),
{
    let width = maximum(size.0, f.right);
    let height = maximum(size.1, f.bottom);
    let mut grown: Vec<Artboard> = Vec::new();
    let at = match active {
        Some(id) => first_with_id(boards, id),
        None => None,
    };
    proof {
        if let Some(id) = active {
            lemma_grown(
                boards@,
                id,
                *d,
                *f,
                match at {
                    Some(k) => k as int,
                    None => boards.len() as int,
                },
            );
        }
    }
    let mut i: usize = 0;
    while i < boards.len()
        invariant
            i <= boards.len(),
            grown.len() == i,
            forall|j: int|
                0 <= j < i ==> grown@[j] == if at == Some(j as usize) {
                    grown_board(boards@[j], *d, *f)
                } else {
                    boards@[j]
                },
        decreases boards.len() - i,
    {
        let b = boards[i];
        if at.is_some() && at.unwrap() == i {
            let right = maximum(plus(b.x, b.width), f.right);
            let bottom = maximum(plus(b.y, b.height), f.bottom);
            let x = minimum(b.x, d.x);
            let y = minimum(b.y, d.y);
            grown.push(Artboard { id: b.id, x, y, width: minus(right, x), height: minus(bottom, y) });
        } else {
            grown.push(b);
        }
        i += 1;
    }
    assert(grown@ =~= grown_boards(boards@, active, *d, *f));
    let resize = !(same(width, size.0) && same(height, size.1));
    let set_boards = boards_differ(&grown, boards);
    Growth { width, height, resize, boards: grown, set_boards }
}


proof fn lemma_rows(f: PageFrame, links: Seq<LinkView>, i: int)
    requires
        0 <= i < links.len(),
    ensures
        all_rows(f, links).len() == 4 * links.len(),
        all_rows(f, links).subrange(4 * i, 4 * i + 4) == row_items(f, i as nat, links[i]),
    decreases links.len(),
{
    let less = links.drop_last();
    let last = row_items(f, (links.len() - 1) as nat, links.last());
    let all = all_rows(f, links);
    if less.len() > 0 {
        lemma_rows(f, less, if i < less.len() {
            i
        } else {
            0
        });
    }
    let before = all_rows(f, less);
    assert(before.len() == 4 * less.len());
    if i < less.len() {
        assert(all.subrange(4 * i, 4 * i + 4) =~= before.subrange(4 * i, 4 * i + 4));
        assert(less[i] == links[i]);
    } else {
        assert(all.subrange(4 * i, 4 * i + 4) =~= last);
    }
}

/// The items of the page that belong to a link.
pub open spec fn items_of_link(d: Destination, t: TextsView, links: Seq<LinkView>, i: int) -> Seq<
    ItemView,
> {
    page_items(d, t, links).subrange(13 + 4 * i, 17 + 4 * i)
}

proof fn lemma_items_of_link(d: Destination, t: TextsView, links: Seq<LinkView>, i: int)
    requires
        0 <= i < links.len(),
    ensures
        items_of_link(d, t, links, i) == row_items(
            page_frame(d, links.len()),
            i as nat,
            links[i],
        ),
        page_items(d, t, links).len() == 13 + 4 * links.len(),
{
    let f = page_frame(d, links.len());
    lemma_rows(f, links, i);
    let head = heading_items(d, f, t) + card_items(f) + mailing_items(f, t) + follow_items(f, t);
    assert(head.len() == 13);
    assert(page_items(d, t, links) =~= head + all_rows(f, links));
    assert(items_of_link(d, t, links, i) =~= all_rows(f, links).subrange(4 * i, 4 * i + 4));
}

/// A link is shown in a row of its own: in a pill that is named after it, with its icon, and
/// behind it the label in a strong text and the handle in a smaller, weaker one below.
pub proof fn law_row_shows_its_link(
    d: Destination,
    t: TextsView,
    links: Seq<LinkView>,
    i: int,
    j: nat,
)
    requires
        0 <= i < links.len() <= 0x1000,
        1066 <= j <= 1074,
        is_plain(d.x, j),
        is_plain(d.y, j),
        is_plain(d.width, j),
    ensures
        ({
            let row = items_of_link(d, t, links, i);
            let pill = row[0];
            &&& row.len() == 4
            &&& pill is Rect && row[1] is Icon && row[2] is Text && row[3] is Text
            &&& pill->Rect_name == "Social link: "@ + links[i].label
            &&& row[1]->Icon_name == links[i].icon
            &&& row[2]->Text_content == links[i].label && row[3]->Text_content == links[i].handle
            &&& row[2]->Text_weight > row[3]->Text_weight
            &&& row[2]->Text_x == row[3]->Text_x
            &&& exact(row[3]->Text_y) == exact(row[2]->Text_y) + 20 * one_units()
            &&& exact(row[1]->Icon_x) == exact(pill->Rect_x) + 9 * one_units()
            &&& exact(row[1]->Icon_y) == exact(pill->Rect_y) + 9 * one_units()
            &&& exact(row[2]->Text_x) == exact(row[1]->Icon_x) + 49 * one_units()
            &&& exact(row[2]->Text_y) == exact(pill->Rect_y) + 13 * one_units()
            &&& i + 1 < links.len() ==> items_of_link(d, t, links, i + 1)[0]->Rect_x
                == pill->Rect_x && exact(items_of_link(d, t, links, i + 1)[0]->Rect_y) == exact(
                pill->Rect_y,
            ) + 70 * one_units()
        }),
{
    let f = page_frame(d, links.len());
    lemma_items_of_link(d, t, links, i);
    lemma_page_frame(d, links.len(), j);
    let h = (j - 1) as nat;
    let x = f_add(right_card_x(f), whole(24));
    let y = row_y(f, i as nat);
    lemma_row_y(f, i as nat, h);
    lemma_whole_within(9, h);
    lemma_whole_within(13, h);
    lemma_whole_within(24, h);
    lemma_whole_within(33, h);
    lemma_whole_within(58, h);
    lemma_add(right_card_x(f), whole(24), h, 0x10_0000_0000, 0x1_0000);
    lemma_add(x, whole(9), h, 0x11_0000_0000, 0x1_0000);
    lemma_add(x, whole(58), h, 0x11_0000_0000, 0x2_0000);
    lemma_add(y, whole(9), h, 0x20_0000_0000, 0x1_0000);
    lemma_add(y, whole(13), h, 0x20_0000_0000, 0x1_0000);
    lemma_add(y, whole(33), h, 0x20_0000_0000, 0x2_0000);
    if i + 1 < links.len() {
        lemma_items_of_link(d, t, links, i + 1);
        lemma_row_y(f, (i + 1) as nat, h);
        let step = 70 * one_units() as int;
        assert((i + 1) * step == i * step + step) by (nonlinear_arith);
    }
}


proof fn lemma_row_y(f: PageFrame, i: nat, h: nat)
    requires
        within(f.card_y, h, 0x1_0000_0000),
        i <= 0x1000,
        1064 <= h <= 1074,
    ensures
        within(row_y(f, i), h, 0x20_0000_0000),
        exact(row_y(f, i)) == exact(f.card_y) + 116 * one_units() + i * (70 * one_units()),
{
    lemma_whole_within(116, h);
    lemma_whole_within(70, h);
    lemma_add(f.card_y, whole(116), h, 0x1_0000_0000, 0x20_0000);
    let m: int = 0x1_1800;
    assert(i * m <= 0x1000 * 0x11800) by (nonlinear_arith)
        requires
            i <= 0x1000,
            m == 0x11800,
    ;
    lemma_times(i, whole(70), h, m);
    lemma_add(
        f_add(f.card_y, whole(116)),
        f_mul(whole(i), whole(70)),
        h,
        0x1_0020_0000,
        i * m,
    );
}

proof fn lemma_page_frame(d: Destination, links: nat, j: nat)
    requires
        1066 <= j <= 1074,
        is_plain(d.x, j),
        is_plain(d.y, j),
        is_plain(d.width, j),
    ensures
        ({
            let f = page_frame(d, links);
            let h = (j - 1) as nat;
            let one = one_units();
            &&& within(f.content_x, h, 0x8_0000_0000)
            &&& within(f.card_width, h, 0x4_0000_0000)
            &&& within(right_card_x(f), h, 0x10_0000_0000)
            &&& within(f.card_y, h, 0x1_0000_0000)
            &&& within(f.content_width, j, 0x8000_0000)
            &&& 2 * exact(f.content_x) + exact(f.content_width) == 2 * exact(d.x) + exact(d.width)
            &&& 2 * exact(f.card_width) == exact(f.content_width) - 24 * one
            &&& exact(right_card_x(f)) == exact(f.content_x) + exact(f.card_width) + 24 * one
            &&& exact(f.card_y) == exact(d.y) + 188 * one
            &&& exact(f.content_width) <= 768 * one
            &&& exact(f.content_width) <= exact(d.width) - 64 * one
            &&& exact(f.content_width) == 768 * one || exact(f.content_width) == exact(d.width)
                - 64 * one
        }),
{
    let f = page_frame(d, links);
    let h = (j - 1) as nat;
    lemma_plain(d.x, j);
    lemma_plain(d.y, j);
    lemma_plain(d.width, j);
    lemma_whole_within(64, j);
    lemma_whole_within(768, j);
    lemma_whole_within(24, j);
    lemma_whole_within(24, h);
    lemma_whole_within(188, j);
    lemma_sub(d.width, whole(64), j, 0x4000_0000, 0x20_0000);
    lemma_order(f_sub(d.width, whole(64)), whole(768));
    lemma_sub(d.width, f.content_width, j, 0x4000_0000, 0x4800_0000);
    lemma_half(f_sub(d.width, f.content_width), j, 0x8800_0000);
    lemma_add(d.x, half(f_sub(d.width, f.content_width)), h, 0x8000_0000, 0x8800_0000);
    lemma_sub(f.content_width, whole(24), j, 0x4800_0000, 0x20_0000);
    lemma_half(f_sub(f.content_width, whole(24)), j, 0x4900_0000);
    lemma_add(f.content_x, f.card_width, h, 0x1_0800_0000, 0x4900_0000);
    lemma_add(
        f_add(f.content_x, f.card_width),
        whole(24),
        h,
        0x1_5100_0000,
        0x20_0000,
    );
    lemma_add(d.y, whole(188), j, 0x4000_0000, 0x20_0000);
    lemma_in_halves(f.card_y, j, 0x4020_0000);
}

/// The content stands in the middle of the page, with equal margins; its two cards are of one
/// size and at one height, the one for the mailing list on the left, the one for the links
/// 24 pixels behind its end and up to the end of the content.
pub proof fn law_cards_share_the_content(
    d: Destination,
    t: TextsView,
    links: Seq<LinkView>,
    j: nat,
)
    requires
        1066 <= j <= 1074,
        is_plain(d.x, j),
        is_plain(d.y, j),
        is_plain(d.width, j),
    ensures
        ({
            let p = page_items(d, t, links);
            let left = p[3];
            let right = p[4];
            let one = one_units();
            &&& left is Rect && right is Rect
            &&& left->Rect_name == "Join mailing list card"@ && right->Rect_name
                == "Follow along card"@
            &&& left->Rect_w == right->Rect_w && left->Rect_h == right->Rect_h && left->Rect_y
                == right->Rect_y
            &&& exact(right->Rect_x) == exact(left->Rect_x) + exact(left->Rect_w) + 24 * one
            &&& exact(left->Rect_x) - exact(d.x) == exact(d.x) + exact(d.width) - (exact(
                right->Rect_x,
            ) + exact(right->Rect_w))
            &&& exact(left->Rect_x) - exact(d.x) >= 32 * one
            &&& exact(left->Rect_y) == exact(d.y) + 188 * one
        }),
{
    lemma_page_frame(d, links.len(), j);
    let f = page_frame(d, links.len());
    let head = heading_items(d, f, t) + card_items(f);
    let p = page_items(d, t, links);
    assert(p[3] == card_items(f)[0]);
    assert(p[4] == card_items(f)[1]);
}

/// A text of the page and where it stands.
pub open spec fn says(item: ItemView, said: Seq<char>) -> bool {
    item matches ItemView::Text { content, .. } && content == said
}

/// The page says its title above its subtitle, in a larger text, at the left of the content;
/// each card says its own title above its own text, inside the card.
pub proof fn law_texts_stand_where_they_belong(
    d: Destination,
    t: TextsView,
    links: Seq<LinkView>,
    j: nat,
)
    requires
        1066 <= j <= 1074,
        is_plain(d.x, j),
        is_plain(d.y, j),
        is_plain(d.width, j),
    ensures
        ({
            let p = page_items(d, t, links);
            let one = one_units();
            let (title, subtitle, left, right) = (p[1], p[2], p[3], p[4]);
            let (list_title, list_text, follow_title, follow_text) = (p[5], p[6], p[11], p[12]);
            &&& says(title, t.title) && says(subtitle, t.subtitle)
            &&& says(list_title, t.mailing_title) && says(list_text, t.mailing_body)
            &&& says(follow_title, t.follow_title) && says(follow_text, t.follow_body)
            &&& title->Text_x == left->Rect_x && subtitle->Text_x == left->Rect_x
            &&& exact(d.y) < exact(title->Text_y) < exact(subtitle->Text_y) < exact(left->Rect_y)
            &&& title->Text_weight > subtitle->Text_weight
            &&& exact(list_title->Text_x) == exact(left->Rect_x) + 24 * one
            &&& exact(list_text->Text_x) == exact(left->Rect_x) + 24 * one
            &&& exact(follow_title->Text_x) == exact(right->Rect_x) + 24 * one
            &&& exact(follow_text->Text_x) == exact(right->Rect_x) + 24 * one
            &&& list_title->Text_y == follow_title->Text_y
            &&& list_text->Text_y == follow_text->Text_y
            &&& exact(left->Rect_y) < exact(list_title->Text_y) < exact(list_text->Text_y)
            &&& list_title->Text_weight > list_text->Text_weight
        }),
{
    lemma_page_frame(d, links.len(), j);
    let f = page_frame(d, links.len());
    let p = page_items(d, t, links);
    assert(p[1] == heading_items(d, f, t)[1] && p[2] == heading_items(d, f, t)[2]);
    assert(p[3] == card_items(f)[0] && p[4] == card_items(f)[1]);
    assert(p[5] == mailing_items(f, t)[0] && p[6] == mailing_items(f, t)[1]);
    assert(p[11] == follow_items(f, t)[0] && p[12] == follow_items(f, t)[1]);
    let h = (j - 1) as nat;
    lemma_plain(d.y, j);
    lemma_whole_within(64, j);
    lemma_whole_within(120, j);
    lemma_whole_within(24, h);
    lemma_whole_within(32, h);
    lemma_whole_within(68, h);
    lemma_power_positive(2, 1074);
    lemma_add(d.y, whole(64), j, 0x4000_0000, 0x20_0000);
    lemma_add(d.y, whole(120), j, 0x4000_0000, 0x20_0000);
    lemma_add(f.content_x, whole(24), h, 0x8_0000_0000, 0x20_0000);
    lemma_add(right_card_x(f), whole(24), h, 0x10_0000_0000, 0x20_0000);
    lemma_add(f.card_y, whole(32), h, 0x1_0000_0000, 0x20_0000);
    lemma_add(f.card_y, whole(68), h, 0x1_0000_0000, 0x20_0000);
}


/// A board that grows holds the page and all that it held: it starts where the first of the
/// two starts and ends where the last of them ends, across and down. The document grows to
/// hold the page too.
pub proof fn law_grown_board_holds_both(
    b: Artboard,
    d: Destination,
    f: PageFrame,
    size: (Double, Double),
    j: nat,
)
    requires
        is_plain(b.x, j),
        is_plain(b.y, j),
        is_plain(b.width, j),
        is_plain(b.height, j),
        is_plain(d.x, j),
        is_plain(d.y, j),
        is_plain(f.right, j),
        is_plain(f.bottom, j),
        size.0.wf(),
        size.1.wf(),
    ensures
        ({
            let g = grown_board(b, d, f);
            let s = grown_size(size, f);
            &&& g.id == b.id
            &&& exact(g.x) <= exact(b.x) && exact(g.x) <= exact(d.x)
            &&& exact(g.y) <= exact(b.y) && exact(g.y) <= exact(d.y)
            &&& exact(g.x) == exact(b.x) || exact(g.x) == exact(d.x)
            &&& exact(g.y) == exact(b.y) || exact(g.y) == exact(d.y)
            &&& exact(g.x) + exact(g.width) == larger(exact(b.x) + exact(b.width), exact(f.right))
            &&& exact(g.y) + exact(g.height) == larger(
                exact(b.y) + exact(b.height),
                exact(f.bottom),
            )
            &&& exact(s.0) == larger(exact(size.0), exact(f.right))
            &&& exact(s.1) == larger(exact(size.1), exact(f.bottom))
        }),
{
    lemma_grown_axis(b.x, b.width, d.x, f.right, j);
    lemma_grown_axis(b.y, b.height, d.y, f.bottom, j);
    lemma_plain(f.right, j);
    lemma_plain(f.bottom, j);
    lemma_order(size.0, f.right);
    lemma_order(size.1, f.bottom);
}

/// The larger of two numbers.
pub open spec fn larger(a: int, b: int) -> int {
    if a <= b {
        b
    } else {
        a
    }
}

proof fn lemma_grown_axis(from: Double, length: Double, start: Double, end: Double, j: nat)
    requires
        is_plain(from, j),
        is_plain(length, j),
        is_plain(start, j),
        is_plain(end, j),
    ensures
        ({
            let x = f_min(from, start);
            let w = f_sub(f_max(f_add(from, length), end), x);
            &&& exact(x) <= exact(from) && exact(x) <= exact(start)
            &&& exact(x) == exact(from) || exact(x) == exact(start)
            &&& exact(x) + exact(w) == larger(exact(from) + exact(length), exact(end))
        }),
{
    lemma_plain(from, j);
    lemma_plain(length, j);
    lemma_plain(start, j);
    lemma_plain(end, j);
    lemma_add(from, length, j, 0x4000_0000, 0x4000_0000);
    lemma_order(from, start);
    lemma_order(f_add(from, length), end);
    let x = f_min(from, start);
    let e = f_max(f_add(from, length), end);
    assert(x == from || x == start);
    assert(e == f_add(from, length) || e == end);
    assert(within(x, j, 0x4000_0000));
    assert(within(e, j, 0x8000_0000));
    lemma_sub(e, x, j, 0x8000_0000, 0x4000_0000);
}

/// Only the board with the id grows; the others stay, all in their places.
pub proof fn law_only_the_chosen_board_grows(
    boards: Seq<Artboard>,
    id: Option<u128>,
    d: Destination,
    f: PageFrame,
    i: int,
)
    requires
        0 <= i < boards.len(),
    ensures
        grown_boards(boards, id, d, f).len() == boards.len(),
        id != Some(boards[i].id) ==> grown_boards(boards, id, d, f)[i] == boards[i],
        id == Some(boards[i].id) && (forall|k: int|
            0 <= k < i ==> (#[trigger] boards[k]).id != boards[i].id) ==> grown_boards(
            boards,
            id,
            d,
            f,
        )[i] == grown_board(boards[i], d, f),
    decreases boards.len(),
{
    if id is Some && boards[0].id != id->0 {
        let rest = boards.skip(1);
        if i > 0 {
            assert(rest[i - 1] == boards[i]);
            law_only_the_chosen_board_grows(rest, id, d, f, i - 1);
            if id == Some(boards[i].id) && (forall|k: int|
                0 <= k < i ==> (#[trigger] boards[k]).id != boards[i].id) {
                assert forall|k: int| 0 <= k < i - 1 implies (#[trigger] rest[k]).id
                    != rest[i - 1].id by {
                    assert(rest[k] == boards[k + 1]);
                }
            }
        } else if rest.len() > 0 {
            law_only_the_chosen_board_grows(rest, id, d, f, 0);
        }
    } else if id is Some && i > 0 {
        assert(boards.skip(1)[i - 1] == boards[i]);
    }
}


/// The page ends as far to the right of its corner as it is wide and as far below it as its
/// canvas is high; what is across depends on nothing that is down, and the other way round.
pub proof fn law_page_ends_at_its_corner(
    d: Destination,
    other: Destination,
    links: nat,
    j: nat,
)
    requires
        is_plain(d.x, j),
        is_plain(d.y, j),
        is_plain(d.width, j),
        is_plain(page_frame(d, links).canvas_height, j),
    ensures
        ({
            let f = page_frame(d, links);
            let g = page_frame(other, links);
            &&& exact(f.right) == exact(d.x) + exact(d.width)
            &&& exact(f.bottom) == exact(d.y) + exact(f.canvas_height)
            &&& d.x == other.x && d.width == other.width ==> f.content_x == g.content_x
                && f.content_width == g.content_width && f.card_width == g.card_width && f.right
                == g.right
            &&& d.y == other.y && d.height == other.height ==> f.card_y == g.card_y
                && f.card_height == g.card_height && f.canvas_height == g.canvas_height && f.bottom
                == g.bottom
        }),
{
    let canvas = page_frame(d, links).canvas_height;
    lemma_plain(d.x, j);
    lemma_plain(d.y, j);
    lemma_plain(d.width, j);
    lemma_plain(canvas, j);
    lemma_add(d.x, d.width, j, 0x4000_0000, 0x4000_0000);
    lemma_add(d.y, canvas, j, 0x4000_0000, 0x4000_0000);
}

} // verus!
