//! Where everything on the check-in page goes.
use crate::checkin::{ButtonMetrics, LayoutMetrics};
use crate::double::Double;
use crate::float::{
    exact, f_add, f_max, f_min, f_mul, f_sub, from_count, half, halved, maximum, minimum, minus,
    one_units, plus, times, whole,
};
use crate::plan::{
    box_item, items, push_box, push_icon, push_tagged_box, push_text, push_top_border, text_item,
    top_border, Destination, ItemView, PlanItem,
};
use crate::steps::{
    is_plain, lemma_add, lemma_half, lemma_in_halves, lemma_order, lemma_plain, lemma_sub,
    lemma_times, lemma_whole_within, within,
};
use crate::tailwind::resolved;
use crate::text::{holds_text, joined, push_copy, same_text, texts};
use vstd::prelude::*;

verus! {

/// 28.8 as a number.
pub const LARGE_TEXT: u64 = 0x403c_cccc_cccc_cccd;

/// 17.6 as a number.
pub const LEAD_TEXT: u64 = 0x4031_9999_9999_999a;

/// What a text of the page is.
#[derive(Debug, Clone, Copy, PartialEq, Eq, Structural)]
pub enum TextRole {
    Welcome,
    Prompt,
    Heading,
    Note,
    EventButton,
    VisitButton,
    Plain,
}

/// The role of a text goes by its words.
pub open spec fn role_of(text: Seq<char>) -> TextRole {
    if text == "Welcome!"@ {
        TextRole::Welcome
    } else if text == "Please select your check-in type"@ {
        TextRole::Prompt
    } else if text == "Event Check-in"@ || text == "General Visit"@ {
        TextRole::Heading
    } else if text == "Checking in for a scheduled event"@ || text == "General visit or walk-in"@ {
        TextRole::Note
    } else if text == "Select Event"@ {
        TextRole::EventButton
    } else if text == "Continue"@ {
        TextRole::VisitButton
    } else {
        TextRole::Plain
    }
}

pub fn text_role(text: &str) -> (r: TextRole)
    ensures
        r == role_of(text@),
{
    if same_text(text, "Welcome!") {
        TextRole::Welcome
    } else if same_text(text, "Please select your check-in type") {
        TextRole::Prompt
    } else if same_text(text, "Event Check-in") || same_text(text, "General Visit") {
        TextRole::Heading
    } else if same_text(text, "Checking in for a scheduled event") || same_text(
        text,
        "General visit or walk-in",
    ) {
        TextRole::Note
    } else if same_text(text, "Select Event") {
        TextRole::EventButton
    } else if same_text(text, "Continue") {
        TextRole::VisitButton
    } else {
        TextRole::Plain
    }
}

/// The size of a text.
pub open spec fn role_size(role: TextRole) -> Double {
    match role {
        TextRole::Welcome => Double { bits: LARGE_TEXT },
        TextRole::Prompt | TextRole::Note => Double { bits: LEAD_TEXT },
        TextRole::Heading => whole(24),
        _ => whole(16),
    }
}

/// The weight of a text.
pub open spec fn role_weight(role: TextRole) -> u16 {
    match role {
        TextRole::Welcome | TextRole::Heading => 600,
        TextRole::EventButton | TextRole::VisitButton => 500,
        _ => 400,
    }
}

/// The size and the weight in which a text is set.
pub fn text_setting(role: TextRole) -> (r: (Double, u16))
    ensures
        r == (role_size(role), role_weight(role)),
{
    match role {
        TextRole::Welcome => ((Double { bits: LARGE_TEXT }), 600),
        TextRole::Prompt => ((Double { bits: LEAD_TEXT }), 400),
        TextRole::Heading => (from_count(24), 600),
        TextRole::Note => ((Double { bits: LEAD_TEXT }), 400),
        TextRole::EventButton => (from_count(16), 500),
        TextRole::VisitButton => (from_count(16), 500),
        TextRole::Plain => (from_count(16), 400),
    }
}

/// A text with the extent that it has in its setting.
#[derive(Debug)]
pub struct MeasuredText {
    pub content: String,
    pub width: Double,
    pub height: Double,
}

#[verifier::ext_equal]
pub struct MeasuredView {
    pub content: Seq<char>,
    pub width: Double,
    pub height: Double,
}

impl View for MeasuredText {
    type V = MeasuredView;

    open spec fn view(&self) -> MeasuredView {
        MeasuredView { content: self.content@, width: self.width, height: self.height }
    }
}

/// The texts of a list.
pub open spec fn measured(v: Seq<MeasuredText>) -> Seq<MeasuredView> {
    v.map_values(|t: MeasuredText| t@)
}

/// What the page is drawn with.
#[derive(Debug)]
pub struct CheckinStyle {
    pub layout: LayoutMetrics,
    pub button: ButtonMetrics,
    pub blue: String,
    pub gold: String,
    pub primary_blue: String,
    /// The names of the icons at hand.
    pub icons: Vec<String>,
}

/// The card of the page and its content column.
#[derive(Debug, Clone, Copy, PartialEq, Eq, Structural)]
pub struct CardFrame {
    pub x: Double,
    pub y: Double,
    pub width: Double,
    pub height: Double,
    pub content_x: Double,
    pub content_width: Double,
}

/// The card is as wide as the layout says but leaves 20 pixels on either side; it
/// is centred, and at most 650 pixels high.
pub open spec fn card_frame(d: Destination, l: LayoutMetrics) -> CardFrame {
    let padding = resolved(l.card_padding.variants@, l.card_padding.base, d.width);
    let width = f_min(l.card_width, f_sub(d.width, whole(40)));
    let x = f_add(d.x, half(f_sub(d.width, width)));
    CardFrame {
        x,
        y: f_add(f_add(d.y, f_max(l.outer_padding, whole(20))), whole(44)),
        width,
        height: f_min(f_sub(d.height, whole(128)), whole(650)),
        content_x: f_add(x, padding),
        content_width: f_sub(width, f_mul(padding, whole(2))),
    }
}

pub fn checkin_card_frame(d: &Destination, l: &LayoutMetrics) -> (f: CardFrame)
    ensures
        f == card_frame(*d, *l),
{
    let padding = l.card_padding.resolve(d.width);
    let width = minimum(l.card_width, minus(d.width, from_count(40)));
    let x = plus(d.x, halved(minus(d.width, width)));
    CardFrame {
        x,
        y: plus(plus(d.y, maximum(l.outer_padding, from_count(20))), from_count(44)),
        width,
        height: minimum(minus(d.height, from_count(128)), from_count(650)),
        content_x: plus(x, padding),
        content_width: minus(width, times(padding, from_count(2))),
    }
}

/// The backdrop, the card and its gold edge.
pub open spec fn surface_items(d: Destination, f: CardFrame, s: CheckinStyle) -> Seq<ItemView> {
    seq![
        box_item(
            "Kiosk blue background"@,
            d.x,
            d.y,
            d.width,
            d.height,
            whole(0),
            s.blue@,
            s.blue@,
            whole(0),
        ),
        ItemView::Rect {
            name: "Kiosk content surface"@,
            x: f.x,
            y: f.y,
            w: f.width,
            h: f.height,
            radius: whole(s.layout.card_radius as nat),
            fill: "#ffffff"@,
            stroke: "#e5e7eb"@,
            stroke_width: whole(1),
            tags: seq!["react-css:box-shadow=0_6px_24px_rgba(0,0,0,0.08)"@],
        },
        top_border(
            "Kiosk gold accent"@,
            f.x,
            f.y,
            f.width,
            whole(s.layout.card_radius as nat),
            s.layout.card_top_border_width,
            s.gold@,
        ),
    ]
}

/// What lies between the icon and the label of a button.
pub open spec fn inline_gap(b: ButtonMetrics) -> Double {
    f_add(b.gap, b.icon_margin_right)
}

/// How wide the icon, the gap and the label of a button are together.
pub open spec fn inline_width(b: ButtonMetrics, label: Double) -> Double {
    f_add(f_add(b.icon_size, inline_gap(b)), label)
}

/// Where the icon of the exit button starts.
pub open spec fn exit_content_x(d: Destination, s: CheckinStyle, label: Double) -> Double {
    let outer = f_add(
        inline_width(s.button, label),
        f_mul(s.button.horizontal_padding, whole(2)),
    );
    f_add(
        f_sub(f_sub(f_add(d.x, d.width), s.layout.outer_padding), outer),
        s.button.horizontal_padding,
    )
}

/// Something `height` high in the middle of a button that starts at `top`.
pub open spec fn middle_of_button(b: ButtonMetrics, top: Double, height: Double) -> Double {
    f_add(top, half(f_sub(b.height, height)))
}

/// The exit button: its label and its icon, at the right of the page.
pub open spec fn exit_items(d: Destination, s: CheckinStyle, exit: MeasuredView) -> Seq<ItemView> {
    let b = s.button;
    let x = exit_content_x(d, s, exit.width);
    let top = f_add(d.y, s.layout.outer_padding);
    seq![
        text_item(
            exit.content,
            f_add(f_add(x, b.icon_size), inline_gap(b)),
            middle_of_button(b, top, exit.height),
            whole(16),
            500,
            "#ffffff"@,
        ),
        ItemView::Icon {
            name: "LogOut"@,
            x,
            y: middle_of_button(b, top, b.icon_size),
            size: b.icon_size,
            color: "#ffffff"@,
        },
    ]
}

/// The icon of a button.
pub open spec fn button_icon(role: TextRole) -> Seq<char> {
    if role == TextRole::EventButton {
        "Calendar"@
    } else {
        "Users"@
    }
}

pub open spec fn is_button(role: TextRole) -> bool {
    role == TextRole::EventButton || role == TextRole::VisitButton
}

/// The colour of a text.
pub open spec fn role_color(role: TextRole, s: CheckinStyle) -> Seq<char> {
    match role {
        TextRole::Welcome | TextRole::Heading => s.blue@,
        TextRole::Prompt => "#374151"@,
        TextRole::Note => "#4b5563"@,
        TextRole::EventButton | TextRole::VisitButton => "#ffffff"@,
        TextRole::Plain => "#111827"@,
    }
}

/// How far below a text the next one starts.
pub open spec fn role_margin(role: TextRole, s: CheckinStyle) -> Double {
    match role {
        TextRole::Welcome => whole(46),
        TextRole::Prompt => whole(50),
        TextRole::Heading => whole(38),
        TextRole::Note => whole(60),
        TextRole::EventButton | TextRole::VisitButton => f_add(s.button.height, s.layout.section_gap),
        TextRole::Plain => whole(32),
    }
}

/// A button: its box, its icon and its label, the last two centred together.
pub open spec fn button_items(f: CardFrame, s: CheckinStyle, y: Double, t: MeasuredView) -> Seq<
    ItemView,
> {
    let b = s.button;
    let top = f_sub(y, whole(26));
    let x = f_add(f.content_x, half(f_sub(f.content_width, inline_width(b, t.width))));
    seq![
        box_item(
            "Button: "@ + t.content,
            f.content_x,
            top,
            f.content_width,
            b.height,
            whole(8),
            s.primary_blue@,
            s.primary_blue@,
            whole(0),
        ),
        ItemView::Icon {
            name: button_icon(role_of(t.content)),
            x,
            y: middle_of_button(b, top, b.icon_size),
            size: b.icon_size,
            color: "#ffffff"@,
        },
        text_item(
            t.content,
            f_add(f_add(x, b.icon_size), inline_gap(b)),
            middle_of_button(b, top, t.height),
            whole(16),
            500,
            "#ffffff"@,
        ),
    ]
}

/// A text that is no button, centred in the column.
pub open spec fn line_items(f: CardFrame, s: CheckinStyle, y: Double, t: MeasuredView) -> Seq<
    ItemView,
> {
    let role = role_of(t.content);
    seq![
        text_item(
            t.content,
            f_add(f.content_x, half(f_sub(f.content_width, t.width))),
            y,
            role_size(role),
            role_weight(role),
            role_color(role, s),
        ),
    ]
}

/// A divider stands below the prompt and below the event button.
pub open spec fn has_divider(role: TextRole) -> bool {
    role == TextRole::Prompt || role == TextRole::EventButton
}

/// A text with what belongs to it.
pub open spec fn entry_items(f: CardFrame, s: CheckinStyle, y: Double, t: MeasuredView) -> Seq<
    ItemView,
> {
    let role = role_of(t.content);
    let own = if is_button(role) {
        button_items(f, s, y, t)
    } else {
        line_items(f, s, y, t)
    };
    if has_divider(role) {
        own.push(
            box_item(
                "Section divider"@,
                f.content_x,
                f_sub(f_add(y, role_margin(role, s)), whole(16)),
                f.content_width,
                whole(1),
                whole(0),
                "#e5e7eb"@,
                "#e5e7eb"@,
                whole(0),
            ),
        )
    } else {
        own
    }
}

/// Where the next text starts.
pub open spec fn next_y(s: CheckinStyle, y: Double, text: Seq<char>) -> Double {
    let role = role_of(text);
    let below = f_add(y, role_margin(role, s));
    if has_divider(role) {
        f_add(below, whole(20))
    } else {
        below
    }
}

/// Where text number `k` starts: the first 48 pixels below the top of the card.
pub open spec fn text_y(f: CardFrame, s: CheckinStyle, ts: Seq<MeasuredView>, k: nat) -> Double
    decreases k,
{
    if k == 0 {
        f_add(f.y, whole(48))
    } else {
        next_y(s, text_y(f, s, ts, (k - 1) as nat), ts[k - 1].content)
    }
}

/// The first `k` texts with what belongs to them.
pub open spec fn body_items(f: CardFrame, s: CheckinStyle, ts: Seq<MeasuredView>, k: nat) -> Seq<
    ItemView,
>
    decreases k,
{
    if k == 0 {
        Seq::empty()
    } else {
        body_items(f, s, ts, (k - 1) as nat) + entry_items(
            f,
            s,
            text_y(f, s, ts, (k - 1) as nat),
            ts[k - 1],
        )
    }
}

/// The first icon that is needed and not at hand, the exit icon first.
pub open spec fn missing_icon(s: CheckinStyle, ts: Seq<MeasuredView>) -> Option<Seq<char>> {
    if !texts(s.icons@).contains("LogOut"@) {
        Some("LogOut"@)
    } else {
        missing_button_icon(s, ts)
    }
}

/// The icon of the first button whose icon is not at hand.
pub open spec fn missing_button_icon(s: CheckinStyle, ts: Seq<MeasuredView>) -> Option<Seq<char>>
    decreases ts.len(),
{
    if ts.len() == 0 {
        None
    } else {
        match missing_button_icon(s, ts.drop_last()) {
            Some(n) => Some(n),
            None => {
                let role = role_of(ts.last().content);
                if is_button(role) && !texts(s.icons@).contains(button_icon(role)) {
                    Some(button_icon(role))
                } else {
                    None
                }
            },
        }
    }
}

/// Everything on the page, from back to front.
pub open spec fn checkin_items(
    d: Destination,
    s: CheckinStyle,
    exit: MeasuredView,
    ts: Seq<MeasuredView>,
) -> Seq<ItemView> {
    let f = card_frame(d, s.layout);
    surface_items(d, f, s) + exit_items(d, s, exit) + body_items(f, s, ts, ts.len())
}

fn push_surface(out: &mut Vec<PlanItem>, d: &Destination, f: &CardFrame, s: &CheckinStyle)
    ensures
        items(final(out)@) == items(old(out)@) + surface_items(*d, *f, *s),
{
    push_box(
        out,
        "Kiosk blue background",
        d.x,
        d.y,
        d.width,
        d.height,
        from_count(0),
        s.blue.as_str(),
        s.blue.as_str(),
        from_count(0),
    );
    let radius = from_count(s.layout.card_radius as u64);
    push_tagged_box(
        out,
        "Kiosk content surface",
        f.x,
        f.y,
        f.width,
        f.height,
        radius,
        "#ffffff",
        "#e5e7eb",
        from_count(1),
        "react-css:box-shadow=0_6px_24px_rgba(0,0,0,0.08)",
    );
    push_top_border(
        out,
        "Kiosk gold accent",
        f.x,
        f.y,
        f.width,
        radius,
        s.layout.card_top_border_width,
        s.gold.as_str(),
    );
    assert(items(out@) =~= items(old(out)@) + surface_items(*d, *f, *s));
}

fn gap_of(b: &ButtonMetrics) -> (r: Double)
    ensures
        r == inline_gap(*b),
{
    plus(b.gap, b.icon_margin_right)
}

fn width_of(b: &ButtonMetrics, label: Double) -> (r: Double)
    ensures
        r == inline_width(*b, label),
{
    plus(plus(b.icon_size, gap_of(b)), label)
}

fn middle(b: &ButtonMetrics, top: Double, height: Double) -> (r: Double)
    ensures
        r == middle_of_button(*b, top, height),
{
    plus(top, halved(minus(b.height, height)))
}

fn push_exit(out: &mut Vec<PlanItem>, d: &Destination, s: &CheckinStyle, exit: &MeasuredText)
    ensures
        items(final(out)@) == items(old(out)@) + exit_items(*d, *s, exit@),
{
    let b = &s.button;
    let outer = plus(width_of(b, exit.width), times(b.horizontal_padding, from_count(2)));
    let x = plus(
        minus(minus(plus(d.x, d.width), s.layout.outer_padding), outer),
        b.horizontal_padding,
    );
    let top = plus(d.y, s.layout.outer_padding);
    push_text(
        out,
        exit.content.as_str(),
        plus(plus(x, b.icon_size), gap_of(b)),
        middle(b, top, exit.height),
        from_count(16),
        500,
        "#ffffff",
    );
    push_icon(out, "LogOut", x, middle(b, top, b.icon_size), b.icon_size, "#ffffff");
    assert(items(out@) =~= items(old(out)@) + exit_items(*d, *s, exit@));
}

fn push_button(
    out: &mut Vec<PlanItem>,
    f: &CardFrame,
    s: &CheckinStyle,
    y: Double,
    t: &MeasuredText,
    icon: &str,
)
    requires
        icon@ == button_icon(role_of(t.content@)),
    ensures
        items(final(out)@) == items(old(out)@) + button_items(*f, *s, y, t@),
{
    let b = &s.button;
    let top = minus(y, from_count(26));
    let x = plus(f.content_x, halved(minus(f.content_width, width_of(b, t.width))));
    let name = joined("Button: ", t.content.as_str());
    push_box(
        out,
        name.as_str(),
        f.content_x,
        top,
        f.content_width,
        b.height,
        from_count(8),
        s.primary_blue.as_str(),
        s.primary_blue.as_str(),
        from_count(0),
    );
    push_icon(out, icon, x, middle(b, top, b.icon_size), b.icon_size, "#ffffff");
    push_text(
        out,
        t.content.as_str(),
        plus(plus(x, b.icon_size), gap_of(b)),
        middle(b, top, t.height),
        from_count(16),
        500,
        "#ffffff",
    );
    assert(items(out@) =~= items(old(out)@) + button_items(*f, *s, y, t@));
}

fn margin_of(role: TextRole, s: &CheckinStyle) -> (r: Double)
    ensures
        r == role_margin(role, *s),
{
    match role {
        TextRole::Welcome => from_count(46),
        TextRole::Prompt => from_count(50),
        TextRole::Heading => from_count(38),
        TextRole::Note => from_count(60),
        TextRole::EventButton => plus(s.button.height, s.layout.section_gap),
        TextRole::VisitButton => plus(s.button.height, s.layout.section_gap),
        TextRole::Plain => from_count(32),
    }
}

fn color_of(role: TextRole, s: &CheckinStyle) -> (r: &str)
    ensures
        r@ == role_color(role, *s),
{
    match role {
        TextRole::Welcome => s.blue.as_str(),
        TextRole::Prompt => "#374151",
        TextRole::Heading => s.blue.as_str(),
        TextRole::Note => "#4b5563",
        TextRole::EventButton => "#ffffff",
        TextRole::VisitButton => "#ffffff",
        TextRole::Plain => "#111827",
    }
}

fn push_line(out: &mut Vec<PlanItem>, f: &CardFrame, s: &CheckinStyle, y: Double, t: &MeasuredText)
    ensures
        items(final(out)@) == items(old(out)@) + line_items(*f, *s, y, t@),
{
    let role = text_role(t.content.as_str());
    let (size, weight) = text_setting(role);
    push_text(
        out,
        t.content.as_str(),
        plus(f.content_x, halved(minus(f.content_width, t.width))),
        y,
        size,
        weight,
        color_of(role, s),
    );
    assert(items(out@) =~= items(old(out)@) + line_items(*f, *s, y, t@));
}

/// Appends a text with what belongs to it, and returns where the next one starts.
fn push_entry(
    out: &mut Vec<PlanItem>,
    f: &CardFrame,
    s: &CheckinStyle,
    y: Double,
    t: &MeasuredText,
) -> (r: Double)
    ensures
        items(final(out)@) == items(old(out)@) + entry_items(*f, *s, y, t@),
        r == next_y(*s, y, t.content@),
{
    let role = text_role(t.content.as_str());
    match role {
        TextRole::EventButton => push_button(out, f, s, y, t, "Calendar"),
        TextRole::VisitButton => push_button(out, f, s, y, t, "Users"),
        _ => push_line(out, f, s, y, t),
    }
    let below = plus(y, margin_of(role, s));
    let divided_below = match role {
        TextRole::Prompt => true,
        TextRole::EventButton => true,
        _ => false,
    };
    let r = if divided_below {
        push_box(
            out,
            "Section divider",
            f.content_x,
            minus(below, from_count(16)),
            f.content_width,
            from_count(1),
            from_count(0),
            "#e5e7eb",
            "#e5e7eb",
            from_count(0),
        );
        plus(below, from_count(20))
    } else {
        below
    };
    assert(items(out@) =~= items(old(out)@) + entry_items(*f, *s, y, t@));
    r
}

/// The first icon that is needed and not at hand.
fn find_missing_icon(s: &CheckinStyle, ts: &Vec<MeasuredText>) -> (r: Option<&'static str>)
    ensures
        match r {
            Some(n) => missing_icon(*s, measured(ts@)) == Some(n@),
            None => missing_icon(*s, measured(ts@)) is None,
        },
{
    if !holds_text(&s.icons, "LogOut") {
        return Some("LogOut");
    }
    let ghost all = measured(ts@);
    assert(all.take(0) =~= Seq::<MeasuredView>::empty());
    let mut i: usize = 0;
    while i < ts.len()
        invariant
            i <= ts.len(),
            texts(s.icons@).contains("LogOut"@),
            all == measured(ts@),
            missing_button_icon(*s, all.take(i as int)) is None,
        decreases ts.len() - i,
    {
        let icon: Option<&'static str> = match text_role(ts[i].content.as_str()) {
            TextRole::EventButton => Some("Calendar"),
            TextRole::VisitButton => Some("Users"),
            _ => None,
        };
        proof {
            assert(all.take(i + 1).drop_last() =~= all.take(i as int));
            assert(all.take(i + 1).last() == ts@[i as int]@);
        }
        if let Some(n) = icon {
            if !holds_text(&s.icons, n) {
                proof {
                    lemma_missing_take(*s, all, i + 1);
                }
                return Some(n);
            }
        }
        i += 1;
    }
    assert(all.take(all.len() as int) =~= all);
    None
}

proof fn lemma_missing_take(s: CheckinStyle, ts: Seq<MeasuredView>, i: int)
    requires
        0 <= i <= ts.len(),
        missing_button_icon(s, ts.take(i)) is Some,
    ensures
        missing_button_icon(s, ts) == missing_button_icon(s, ts.take(i)),
    decreases ts.len() - i,
{
    if i == ts.len() {
        assert(ts.take(i) =~= ts);
    } else {
        assert(ts.take(i + 1).drop_last() =~= ts.take(i));
        lemma_missing_take(s, ts, i + 1);
    }
}

/// Plans the check-in page. Each text comes with its extent at the size and the
/// weight of its role.
pub fn plan_checkin_page(
    d: &Destination,
    s: &CheckinStyle,
    exit: &MeasuredText,
    ts: &Vec<MeasuredText>,
) -> (r: Result<Vec<PlanItem>, String>)
    ensures
        match r {
            Ok(v) => missing_icon(*s, measured(ts@)) is None && items(v@) == checkin_items(
                *d,
                *s,
                exit@,
                measured(ts@),
            ),
            Err(e) => missing_icon(*s, measured(ts@)) matches Some(n) && e@ == "preflighted "@ + n
                + " icon is missing"@,
        },
{
    if let Some(n) = find_missing_icon(s, ts) {
        let head = joined("preflighted ", n);
        return Err(joined(head.as_str(), " icon is missing"));
    }
    let f = checkin_card_frame(d, &s.layout);
    let mut out: Vec<PlanItem> = Vec::new();
    assert(items(out@) =~= Seq::<ItemView>::empty());
    push_surface(&mut out, d, &f, s);
    push_exit(&mut out, d, s, exit);
    let ghost start = items(out@);
    assert(start =~= surface_items(*d, f, *s) + exit_items(*d, *s, exit@));
    let ghost all = measured(ts@);
    let mut y = plus(f.y, from_count(48));
    let mut i: usize = 0;
    while i < ts.len()
        invariant
            i <= ts.len(),
            all == measured(ts@),
            y == text_y(f, *s, all, i as nat),
            items(out@) == start + body_items(f, *s, all, i as nat),
        decreases ts.len() - i,
    {
        assert(all[i as int] == ts@[i as int]@);
        y = push_entry(&mut out, &f, s, y, &ts[i]);
        assert(items(out@) =~= start + body_items(f, *s, all, (i + 1) as nat));
        i += 1;
    }
    Ok(out)
}

/// The tags of the page's group.
pub open spec fn checkin_tags(handlers: Seq<Seq<char>>) -> Seq<Seq<char>> {
    seq!["react-role:page"@, "source-export:ModeSelector"@] + handlers.map_values(
        |h: Seq<char>| "stripped-interaction:"@ + h,
    )
}

pub fn checkin_page_tags(handlers: &Vec<String>) -> (r: Vec<String>)
    ensures
        texts(r@) == checkin_tags(texts(handlers@)),
{
    let mut out: Vec<String> = Vec::new();
    assert(texts(out@) =~= Seq::<Seq<char>>::empty());
    push_copy(&mut out, "react-role:page");
    push_copy(&mut out, "source-export:ModeSelector");
    let ghost start = texts(out@);
    let ghost tags = texts(handlers@).map_values(|h: Seq<char>| "stripped-interaction:"@ + h);
    let mut i: usize = 0;
    while i < handlers.len()
        invariant
            i <= handlers.len(),
            tags == texts(handlers@).map_values(|h: Seq<char>| "stripped-interaction:"@ + h),
            texts(out@) == start + tags.take(i as int),
        decreases handlers.len() - i,
    {
        let tag = joined("stripped-interaction:", handlers[i].as_str());
        push_copy(&mut out, tag.as_str());
        assert(tags.take(i + 1) =~= tags.take(i as int).push(tag@));
        i += 1;
    }
    assert(tags.take(tags.len() as int) =~= tags);
    out
}


/// The index of the first item of text `k` among those of the card.
pub open spec fn entry_start(f: CardFrame, s: CheckinStyle, ts: Seq<MeasuredView>, k: nat) -> int {
    body_items(f, s, ts, k).len() as int
}

proof fn lemma_entry(f: CardFrame, s: CheckinStyle, ts: Seq<MeasuredView>, n: nat, k: nat)
    requires
        k < n <= ts.len(),
    ensures
        ({
            let at = entry_start(f, s, ts, k);
            let e = entry_items(f, s, text_y(f, s, ts, k), ts[k as int]);
            &&& at + e.len() <= body_items(f, s, ts, n).len()
            &&& body_items(f, s, ts, n).subrange(at, at + e.len()) == e
        }),
    decreases n,
{
    let before = body_items(f, s, ts, (n - 1) as nat);
    let at = entry_start(f, s, ts, k);
    let e = entry_items(f, s, text_y(f, s, ts, k), ts[k as int]);
    if k < n - 1 {
        lemma_entry(f, s, ts, (n - 1) as nat, k);
        assert(body_items(f, s, ts, n).subrange(at, at + e.len()) =~= before.subrange(
            at,
            at + e.len(),
        ));
    } else {
        assert(body_items(f, s, ts, n).subrange(at, at + e.len()) =~= e);
    }
}

/// The items of the page that belong to text `k`.
pub open spec fn items_of_text(
    d: Destination,
    s: CheckinStyle,
    exit: MeasuredView,
    ts: Seq<MeasuredView>,
    k: nat,
) -> Seq<ItemView> {
    let f = card_frame(d, s.layout);
    let at = 5 + entry_start(f, s, ts, k);
    checkin_items(d, s, exit, ts).subrange(
        at,
        at + entry_items(f, s, text_y(f, s, ts, k), ts[k as int]).len(),
    )
}

proof fn lemma_items_of_text(
    d: Destination,
    s: CheckinStyle,
    exit: MeasuredView,
    ts: Seq<MeasuredView>,
    k: nat,
)
    requires
        k < ts.len(),
    ensures
        items_of_text(d, s, exit, ts, k) == entry_items(
            card_frame(d, s.layout),
            s,
            text_y(card_frame(d, s.layout), s, ts, k),
            ts[k as int],
        ),
{
    let f = card_frame(d, s.layout);
    lemma_entry(f, s, ts, ts.len(), k);
    let at = entry_start(f, s, ts, k);
    let e = entry_items(f, s, text_y(f, s, ts, k), ts[k as int]);
    let body = body_items(f, s, ts, ts.len());
    assert(surface_items(d, f, s).len() == 3 && exit_items(d, s, exit).len() == 2);
    assert(items_of_text(d, s, exit, ts, k) =~= body.subrange(at, at + e.len()));
}

/// Every text of the page is shown, in the order of the source. `Select Event` and
/// `Continue` are buttons, with an icon of their own to the left of the label; every other
/// text is a line of its own.
pub proof fn law_texts_are_shown(
    d: Destination,
    s: CheckinStyle,
    exit: MeasuredView,
    ts: Seq<MeasuredView>,
    k: nat,
)
    requires
        k < ts.len(),
    ensures
        ({
            let e = items_of_text(d, s, exit, ts, k);
            let said = ts[k as int].content;
            if said == "Select Event"@ || said == "Continue"@ {
                &&& e.len() >= 3 && e[0] is Rect && e[1] is Icon && e[2] is Text
                &&& e[2]->Text_content == said && e[0]->Rect_name == "Button: "@ + said
                &&& said == "Select Event"@ ==> e[1]->Icon_name == "Calendar"@
                &&& said != "Select Event"@ ==> e[1]->Icon_name == "Users"@
                &&& e[2]->Text_x == f_add(
                    f_add(e[1]->Icon_x, e[1]->Icon_size),
                    f_add(s.button.gap, s.button.icon_margin_right),
                )
                &&& e[0]->Rect_h == s.button.height
            } else {
                &&& e.len() >= 1 && e[0] is Text && e[0]->Text_content == said
            }
        }),
{
    lemma_items_of_text(d, s, exit, ts, k);
    reveal_strlit("Welcome!");
    reveal_strlit("Please select your check-in type");
    reveal_strlit("Event Check-in");
    reveal_strlit("General Visit");
    reveal_strlit("Checking in for a scheduled event");
    reveal_strlit("General visit or walk-in");
    reveal_strlit("Select Event");
    reveal_strlit("Continue");
    assert("Select Event"@.len() == 12);
    assert("Continue"@.len() == 8);
    assert("Welcome!"@.len() == 8 && "Welcome!"@[0] == 'W' && "Continue"@[0] == 'C');
    assert("General Visit"@.len() == 13);
}

/// What the card is made with is in whole numbers of steps.
pub open spec fn is_plain_card(f: CardFrame, j: nat) -> bool {
    is_plain(f.x, j) && is_plain(f.y, j) && is_plain(f.width, j) && is_plain(f.content_x, j)
        && is_plain(f.content_width, j)
}

/// A line stands in the middle of the content of the card: as far from its left end as from
/// its right one.
pub proof fn law_lines_are_centred(
    d: Destination,
    s: CheckinStyle,
    exit: MeasuredView,
    ts: Seq<MeasuredView>,
    k: nat,
    j: nat,
)
    requires
        k < ts.len(),
        ts[k as int].content != "Select Event"@,
        ts[k as int].content != "Continue"@,
        is_plain_card(card_frame(d, s.layout), j),
        is_plain(ts[k as int].width, j),
    ensures
        ({
            let f = card_frame(d, s.layout);
            let line = items_of_text(d, s, exit, ts, k)[0];
            exact(line->Text_x) - exact(f.content_x) == exact(f.content_x) + exact(
                f.content_width,
            ) - (exact(line->Text_x) + exact(ts[k as int].width))
        }),
{
    law_texts_are_shown(d, s, exit, ts, k);
    lemma_items_of_text(d, s, exit, ts, k);
    let f = card_frame(d, s.layout);
    lemma_centred(f.content_x, f.content_width, ts[k as int].width, j);
}

proof fn lemma_centred(start: Double, room: Double, size: Double, j: nat)
    requires
        is_plain(start, j),
        is_plain(room, j),
        within(size, j, 0x4_0000_0000),
    ensures
        ({
            let x = f_add(start, half(f_sub(room, size)));
            &&& within(x, (j - 1) as nat, 0x8_0000_0000)
            &&& exact(x) - exact(start) == exact(start) + exact(room) - (exact(x) + exact(size))
        }),
{
    let h = (j - 1) as nat;
    lemma_plain(start, j);
    lemma_plain(room, j);
    lemma_sub(room, size, j, 0x4000_0000, 0x4_0000_0000);
    lemma_half(f_sub(room, size), j, 0x4_4000_0000);
    lemma_add(start, half(f_sub(room, size)), h, 0x8000_0000, 0x4_4000_0000);
}

/// The icon and the label of a button stand in the middle of it: as far from its left end as
/// from its right one.
pub proof fn law_buttons_are_centred(
    d: Destination,
    s: CheckinStyle,
    exit: MeasuredView,
    ts: Seq<MeasuredView>,
    k: nat,
    j: nat,
)
    requires
        k < ts.len(),
        ts[k as int].content == "Select Event"@ || ts[k as int].content == "Continue"@,
        is_plain_card(card_frame(d, s.layout), j),
        is_plain(ts[k as int].width, j),
        is_plain(s.button.icon_size, j),
        is_plain(s.button.gap, j),
        is_plain(s.button.icon_margin_right, j),
    ensures
        ({
            let e = items_of_text(d, s, exit, ts, k);
            exact(e[1]->Icon_x) - exact(e[0]->Rect_x) == exact(e[0]->Rect_x) + exact(e[0]->Rect_w)
                - (exact(e[2]->Text_x) + exact(ts[k as int].width))
        }),
{
    law_texts_are_shown(d, s, exit, ts, k);
    lemma_items_of_text(d, s, exit, ts, k);
    let f = card_frame(d, s.layout);
    let b = s.button;
    let t = ts[k as int];
    let h = (j - 1) as nat;
    lemma_plain(t.width, j);
    lemma_plain(b.icon_size, j);
    lemma_plain(b.gap, j);
    lemma_plain(b.icon_margin_right, j);
    lemma_add(b.gap, b.icon_margin_right, j, 0x4000_0000, 0x4000_0000);
    lemma_add(b.icon_size, inline_gap(b), j, 0x4000_0000, 0x8000_0000);
    lemma_add(f_add(b.icon_size, inline_gap(b)), t.width, j, 0xc000_0000, 0x4000_0000);
    lemma_centred(f.content_x, f.content_width, inline_width(b, t.width), j);
    let x = f_add(f.content_x, half(f_sub(f.content_width, inline_width(b, t.width))));
    lemma_add(x, b.icon_size, h, 0x8_0000_0000, 0x8000_0000);
    lemma_in_halves(inline_gap(b), j, 0x8000_0000);
    lemma_add(f_add(x, b.icon_size), inline_gap(b), h, 0x8_8000_0000, 0x1_0000_0000);
}

/// The label that leads out ends, with the padding of its button, at the outer padding from
/// the right edge of the page; its icon stands to its left.
pub proof fn law_exit_stands_at_the_right(
    d: Destination,
    s: CheckinStyle,
    exit: MeasuredView,
    ts: Seq<MeasuredView>,
    j: nat,
)
    requires
        is_plain(d.x, j),
        is_plain(d.width, j),
        is_plain(exit.width, j),
        is_plain(s.layout.outer_padding, j),
        is_plain(s.button.horizontal_padding, j),
        is_plain(s.button.icon_size, j),
        is_plain(s.button.gap, j),
        is_plain(s.button.icon_margin_right, j),
    ensures
        ({
            let p = checkin_items(d, s, exit, ts);
            let b = s.button;
            &&& p[3] is Text && p[4] is Icon
            &&& p[3]->Text_content == exit.content && p[4]->Icon_name == "LogOut"@
            &&& exact(p[3]->Text_x) + exact(exit.width) + exact(b.horizontal_padding) + exact(
                s.layout.outer_padding,
            ) == exact(d.x) + exact(d.width)
            &&& exact(p[3]->Text_x) == exact(p[4]->Icon_x) + exact(b.icon_size) + exact(b.gap)
                + exact(b.icon_margin_right)
        }),
{
    let f = card_frame(d, s.layout);
    let p = checkin_items(d, s, exit, ts);
    assert(p[3] == exit_items(d, s, exit)[0] && p[4] == exit_items(d, s, exit)[1]);
    let b = s.button;
    let w = exit.width;
    let o = s.layout.outer_padding;
    lemma_plain(d.x, j);
    lemma_plain(d.width, j);
    lemma_plain(w, j);
    lemma_plain(o, j);
    lemma_plain(b.horizontal_padding, j);
    lemma_plain(b.icon_size, j);
    lemma_plain(b.gap, j);
    lemma_plain(b.icon_margin_right, j);
    lemma_add(b.gap, b.icon_margin_right, j, 0x4000_0000, 0x4000_0000);
    lemma_add(b.icon_size, inline_gap(b), j, 0x4000_0000, 0x8000_0000);
    lemma_add(f_add(b.icon_size, inline_gap(b)), w, j, 0xc000_0000, 0x4000_0000);
    lemma_times(2, b.horizontal_padding, j, 0x4000_0000);
    let twice = f_mul(b.horizontal_padding, whole(2));
    lemma_add(inline_width(b, w), twice, j, 0x1_0000_0000, 0x8000_0000);
    let outer = f_add(inline_width(b, w), twice);
    lemma_add(d.x, d.width, j, 0x4000_0000, 0x4000_0000);
    lemma_sub(f_add(d.x, d.width), o, j, 0x8000_0000, 0x4000_0000);
    lemma_sub(f_sub(f_add(d.x, d.width), o), outer, j, 0xc000_0000, 0x1_8000_0000);
    lemma_add(
        f_sub(f_sub(f_add(d.x, d.width), o), outer),
        b.horizontal_padding,
        j,
        0x2_4000_0000,
        0x4000_0000,
    );
    let x = exit_content_x(d, s, w);
    lemma_add(x, b.icon_size, j, 0x2_8000_0000, 0x4000_0000);
    lemma_add(f_add(x, b.icon_size), inline_gap(b), j, 0x2_c000_0000, 0x8000_0000);
}

/// The card stands in the middle of the page, and its content in the middle of the card,
/// with the padding on either side.
pub proof fn law_card_is_centred(d: Destination, l: LayoutMetrics, j: nat)
    requires
        1066 <= j <= 1074,
        is_plain(d.x, j),
        is_plain(d.width, j),
        is_plain(l.card_width, j),
        is_plain(resolved(l.card_padding.variants@, l.card_padding.base, d.width), j),
    ensures
        ({
            let f = card_frame(d, l);
            let padding = exact(resolved(l.card_padding.variants@, l.card_padding.base, d.width));
            &&& exact(f.x) - exact(d.x) == exact(d.x) + exact(d.width) - (exact(f.x) + exact(
                f.width,
            ))
            &&& exact(f.width) <= exact(l.card_width)
            &&& exact(f.width) + 40 * one_units() <= exact(d.width)
            &&& exact(f.content_x) - exact(f.x) == padding
            &&& exact(f.x) + exact(f.width) - (exact(f.content_x) + exact(f.content_width))
                == padding
        }),
{
    let f = card_frame(d, l);
    let h = (j - 1) as nat;
    let padding = resolved(l.card_padding.variants@, l.card_padding.base, d.width);
    lemma_plain(d.x, j);
    lemma_plain(d.width, j);
    lemma_plain(l.card_width, j);
    lemma_plain(padding, j);
    lemma_whole_within(40, j);
    lemma_sub(d.width, whole(40), j, 0x4000_0000, 0x20_0000);
    lemma_order(l.card_width, f_sub(d.width, whole(40)));
    lemma_centred(d.x, d.width, f.width, j);
    lemma_add(f.x, padding, h, 0x8_0000_0000, 0x8000_0000);
    lemma_times(2, padding, j, 0x4000_0000);
    lemma_sub(f.width, f_mul(padding, whole(2)), j, 0x4020_0000, 0x8000_0000);
}

/// A text comes below the one before it, by the margin of its kind and at least by that of a
/// plain text; the first stands 48 pixels below the top of the card.
pub proof fn law_texts_come_below_one_another(
    f: CardFrame,
    s: CheckinStyle,
    ts: Seq<MeasuredView>,
    k: nat,
    j: nat,
)
    requires
        k < ts.len() <= 0x1000,
        1066 <= j <= 1074,
        is_plain(f.y, j),
        is_plain(s.button.height, j),
        is_plain(s.layout.section_gap, j),
        exact(s.button.height) + exact(s.layout.section_gap) >= 32 * one_units(),
    ensures
        exact(text_y(f, s, ts, k + 1)) >= exact(text_y(f, s, ts, k)) + 32 * one_units(),
        exact(text_y(f, s, ts, 0)) == exact(f.y) + 48 * one_units(),
{
    lemma_text_y(f, s, ts, k, j);
    lemma_text_y(f, s, ts, 0, j);
    lemma_next_y(s, text_y(f, s, ts, k), ts[k as int].content, k, j);
    lemma_plain(f.y, j);
    lemma_whole_within(48, j);
    lemma_add(f.y, whole(48), j, 0x4000_0000, 0x20_0000);
}

proof fn lemma_text_y(f: CardFrame, s: CheckinStyle, ts: Seq<MeasuredView>, k: nat, j: nat)
    requires
        k <= ts.len() <= 0x1000,
        1066 <= j <= 1074,
        is_plain(f.y, j),
        is_plain(s.button.height, j),
        is_plain(s.layout.section_gap, j),
        exact(s.button.height) + exact(s.layout.section_gap) >= 32 * one_units(),
    ensures
        within(text_y(f, s, ts, k), j, 0x8000_0000 + (k as int) * 0x1_0000_0000),
    decreases k,
{
    if k == 0 {
        lemma_plain(f.y, j);
        lemma_whole_within(48, j);
        lemma_add(f.y, whole(48), j, 0x4000_0000, 0x20_0000);
    } else {
        lemma_text_y(f, s, ts, (k - 1) as nat, j);
        lemma_next_y(s, text_y(f, s, ts, (k - 1) as nat), ts[k - 1].content, (k - 1) as nat, j);
    }
}

proof fn lemma_next_y(s: CheckinStyle, y: Double, text: Seq<char>, k: nat, j: nat)
    requires
        k <= 0x1000,
        1066 <= j <= 1074,
        within(y, j, 0x8000_0000 + (k as int) * 0x1_0000_0000),
        is_plain(s.button.height, j),
        is_plain(s.layout.section_gap, j),
        exact(s.button.height) + exact(s.layout.section_gap) >= 32 * one_units(),
    ensures
        within(next_y(s, y, text), j, 0x8000_0000 + (k as int + 1) * 0x1_0000_0000),
        exact(next_y(s, y, text)) >= exact(y) + 32 * one_units(),
{
    let role = role_of(text);
    lemma_whole_within(46, j);
    lemma_whole_within(50, j);
    lemma_whole_within(38, j);
    lemma_whole_within(60, j);
    lemma_whole_within(32, j);
    lemma_whole_within(20, j);
    lemma_plain(s.button.height, j);
    lemma_plain(s.layout.section_gap, j);
    lemma_add(s.button.height, s.layout.section_gap, j, 0x4000_0000, 0x4000_0000);
    let m = role_margin(role, s);
    assert(within(m, j, 0x8000_0000));
    assert(exact(m) >= 32 * one_units());
    lemma_add(y, m, j, 0x8000_0000 + (k as int) * 0x1_0000_0000, 0x8000_0000);
    lemma_add(
        f_add(y, m),
        whole(20),
        j,
        0x8000_0000 + (k as int) * 0x1_0000_0000 + 0x8000_0000,
        0x20_0000,
    );
}


/// The background fills the whole destination in blue, the surface and the gold line along
/// its top have the place and the width of the card.
pub proof fn law_surfaces_have_their_places(d: Destination, f: CardFrame, s: CheckinStyle)
    ensures
        ({
            let v = surface_items(d, f, s);
            &&& v.len() == 3
            &&& v[0] matches ItemView::Rect { x, y, w, h, fill, .. } && x == d.x && y == d.y && w
                == d.width && h == d.height && fill == s.blue@
            &&& v[1] matches ItemView::Rect { x, y, w, h, .. } && x == f.x && y == f.y && w
                == f.width && h == f.height
            &&& v[2] matches ItemView::TopBorder { stroke_width, color, .. } && stroke_width
                == s.layout.card_top_border_width && color == s.gold@
        }),
{
}

/// Across, the card depends on nothing that is down, and the other way round.
pub proof fn law_card_axes_are_apart(a: Destination, b: Destination, l: LayoutMetrics)
    ensures
        ({
            let f = card_frame(a, l);
            let g = card_frame(b, l);
            &&& a.x == b.x && a.width == b.width ==> f.x == g.x && f.width == g.width
                && f.content_x == g.content_x && f.content_width == g.content_width
            &&& a.y == b.y ==> f.y == g.y
            &&& a.height == b.height ==> f.height == g.height
        }),
{
}

} // verus!
