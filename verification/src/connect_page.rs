//! The static ConnectPage: its social links, its texts and its heights.
use crate::diagnostic::{diag, diagnosed, Diagnostic, DiagnosticView};
use crate::double::Double;
use crate::float::{
    f_add, f_max, f_mul, f_sub, from_count, lemma_whole, lemma_whole_difference,
    lemma_whole_product, lemma_whole_sum, maximum, minus, plus, times, whole,
};
use crate::literals::{
    field_marker, identifier_after, law_fields_are_read_as_written, nth_end, page_text_after,
    quoted_after, quoted_result, static_source_field, static_source_field_after,
    static_source_field_after_nth, static_source_identifier, writes_field,
};
use crate::text::{
    after, before, chars_of, contains, contains_str, cut_before, find, find_from, find_str,
    lemma_find_from, slice, split_on, split_str, text_of,
};
use vstd::prelude::*;

verus! {

/// The most social links of a page.
pub const MAX_LINKS: usize = 8;

/// A social link of the page.
#[verifier::ext_equal]
pub struct LinkView {
    pub href: Seq<char>,
    pub label: Seq<char>,
    pub handle: Seq<char>,
    pub icon: Seq<char>,
}

#[derive(Debug)]
pub struct ImportedSocialLink {
    pub href: String,
    pub label: String,
    pub handle: String,
    pub icon: String,
}

impl View for ImportedSocialLink {
    type V = LinkView;

    open spec fn view(&self) -> LinkView {
        LinkView {
            href: self.href@,
            label: self.label@,
            handle: self.handle@,
            icon: self.icon@,
        }
    }
}

/// The outcome of reading a literal field of a link.
pub open spec fn link_field(object: Seq<char>, field: Seq<char>) -> Result<
    Seq<char>,
    DiagnosticView,
> {
    quoted_result(
        quoted_after(object, field_marker(field)),
        diagnosed("SOURCE_UNSUPPORTED"@, "literal social link field is missing"@, field),
        diagnosed("SOURCE_DYNAMIC"@, "social link fields must be string literals"@, field),
        diagnosed("SOURCE_UNSUPPORTED"@, "social link string literal is unterminated"@, field),
    )
}

/// The link that an object literal writes.
pub open spec fn link_of(object: Seq<char>) -> Result<LinkView, DiagnosticView> {
    match link_field(object, "href"@) {
        Err(d) => Err(d),
        Ok(href) => match link_field(object, "label"@) {
            Err(d) => Err(d),
            Ok(label) => match link_field(object, "handle"@) {
                Err(d) => Err(d),
                Ok(handle) => match identifier_after(object, "Icon"@) {
                    Err(d) => Err(d),
                    Ok(icon) => Ok(LinkView { href, label, handle, icon }),
                },
            },
        },
    }
}

/// The links that the pieces of an array write, each up to its `},`.
pub open spec fn links_of(pieces: Seq<Seq<char>>) -> Result<Seq<LinkView>, DiagnosticView>
    decreases pieces.len(),
{
    if pieces.len() == 0 {
        Ok(Seq::empty())
    } else {
        match links_of(pieces.drop_last()) {
            Err(d) => Err(d),
            Ok(ls) => match link_of(before(pieces.last(), "},"@)) {
                Err(d) => Err(d),
                Ok(l) => Ok(ls.push(l)),
            },
        }
    }
}

/// What a ConnectPage source must contain, in the order in which it is asked.
pub open spec fn page_error(s: Seq<char>) -> Option<DiagnosticView> {
    if !contains(s, "export function ConnectPage"@) {
        Some(
            diagnosed(
                "EXPORT_UNSUPPORTED"@,
                "source is outside the bounded One Day Dance ConnectPage form"@,
                "ConnectPage"@,
            ),
        )
    } else if !contains(s, "const socialLinks = ["@) {
        Some(changed_page("const socialLinks = ["@))
    } else if !contains(s, "<NewsletterSignupWidget />"@) {
        Some(changed_page("<NewsletterSignupWidget />"@))
    } else if !contains(s, "<SlotImage"@) {
        Some(changed_page("<SlotImage"@))
    } else if !contains(s, "Stay in the Loop"@) {
        Some(changed_page("Stay in the Loop"@))
    } else if !contains(s, "Follow along"@) {
        Some(changed_page("Follow along"@))
    } else {
        None
    }
}

pub open spec fn changed_page(marker: Seq<char>) -> DiagnosticView {
    diagnosed(
        "SOURCE_UNSUPPORTED"@,
        "ConnectPage source changed outside the bounded static branch"@,
        marker,
    )
}

/// The links of the array behind `const socialLinks = [`.
pub open spec fn array_links(s: Seq<char>) -> Result<Seq<LinkView>, DiagnosticView> {
    let rest = after(s, "const socialLinks = ["@)->0;
    match find(rest, "]"@) {
        None => Err(
            diagnosed("SOURCE_UNSUPPORTED"@, "socialLinks array is unterminated"@, "socialLinks"@),
        ),
        Some(end) => match links_of(split_on(rest.take(end), "  {"@).skip(1)) {
            Err(d) => Err(d),
            Ok(ls) => if ls.len() == 0 || ls.len() > MAX_LINKS {
                Err(
                    diagnosed(
                        "SOURCE_UNSUPPORTED"@,
                        "ConnectPage requires between one and eight literal social links"@,
                        "socialLinks"@,
                    ),
                )
            } else {
                Ok(ls)
            },
        },
    }
}

/// The links of a page. `has_props` says whether the caller gave any prop.
pub open spec fn connect_links(s: Seq<char>, has_props: bool) -> Result<
    Seq<LinkView>,
    DiagnosticView,
> {
    match page_error(s) {
        Some(d) => Err(d),
        None => if has_props {
            Err(
                diagnosed(
                    "SNAPSHOT_PROPS_UNSUPPORTED"@,
                    "ConnectPage does not accept visible props in this static branch"@,
                    "props"@,
                ),
            )
        } else {
            array_links(s)
        },
    }
}

fn changed(marker: &str) -> (d: Diagnostic)
    ensures
        d@ == changed_page(marker@),
{
    diag(
        "SOURCE_UNSUPPORTED",
        "ConnectPage source changed outside the bounded static branch",
        marker,
    )
}

fn check_page(all: &Vec<char>) -> (r: Option<Diagnostic>)
    ensures
        match r {
            Some(d) => page_error(all@) == Some(d@),
            None => page_error(all@) is None,
        },
{
    if !contains_str(all, "export function ConnectPage") {
        Some(
            diag(
                "EXPORT_UNSUPPORTED",
                "source is outside the bounded One Day Dance ConnectPage form",
                "ConnectPage",
            ),
        )
    } else if !contains_str(all, "const socialLinks = [") {
        Some(changed("const socialLinks = ["))
    } else if !contains_str(all, "<NewsletterSignupWidget />") {
        Some(changed("<NewsletterSignupWidget />"))
    } else if !contains_str(all, "<SlotImage") {
        Some(changed("<SlotImage"))
    } else if !contains_str(all, "Stay in the Loop") {
        Some(changed("Stay in the Loop"))
    } else if !contains_str(all, "Follow along") {
        Some(changed("Follow along"))
    } else {
        None
    }
}

fn read_link(object: &str) -> (r: Result<ImportedSocialLink, Diagnostic>)
    ensures
        match r {
            Ok(l) => link_of(object@) == Ok::<LinkView, DiagnosticView>(l@),
            Err(d) => link_of(object@) == Err::<LinkView, DiagnosticView>(d@),
        },
{
    let href = match static_source_field(object, "href") {
        Ok(v) => v,
        Err(d) => {
            return Err(d);
        },
    };
    let label = match static_source_field(object, "label") {
        Ok(v) => v,
        Err(d) => {
            return Err(d);
        },
    };
    let handle = match static_source_field(object, "handle") {
        Ok(v) => v,
        Err(d) => {
            return Err(d);
        },
    };
    let icon = match static_source_identifier(object, "Icon") {
        Ok(v) => v,
        Err(d) => {
            return Err(d);
        },
    };
    Ok(ImportedSocialLink { href, label, handle, icon })
}

proof fn lemma_links_take(pieces: Seq<Seq<char>>, i: int)
    requires
        0 <= i <= pieces.len(),
        links_of(pieces.take(i)) is Err,
    ensures
        links_of(pieces) == links_of(pieces.take(i)),
    decreases pieces.len() - i,
{
    if i == pieces.len() {
        assert(pieces.take(i) =~= pieces);
    } else {
        assert(pieces.take(i + 1).drop_last() =~= pieces.take(i));
        lemma_links_take(pieces, i + 1);
    }
}

fn read_links(array: &Vec<char>) -> (r: Result<Vec<ImportedSocialLink>, Diagnostic>)
    ensures
        match r {
            Ok(v) => links_of(split_on(array@, "  {"@).skip(1)) == Ok::<
                Seq<LinkView>,
                DiagnosticView,
            >(v@.map_values(|l: ImportedSocialLink| l@)),
            Err(d) => links_of(split_on(array@, "  {"@).skip(1)) == Err::<
                Seq<LinkView>,
                DiagnosticView,
            >(d@),
        },
{
    proof {
        reveal_strlit("  {");
    }
    let parts = split_str(array, "  {");
    let ghost all = split_on(array@, "  {"@);
    let ghost pieces = all.skip(1);
    let mut out: Vec<ImportedSocialLink> = Vec::new();
    let mut i: usize = 1;
    assert(pieces.take(0) =~= Seq::<Seq<char>>::empty());
    assert(out@.map_values(|l: ImportedSocialLink| l@) =~= Seq::<LinkView>::empty());
    while i < parts.len()
        invariant
            1 <= i <= parts.len(),
            all == parts@.map_values(|w: Vec<char>| w@),
            pieces == all.skip(1),
            pieces == split_on(array@, "  {"@).skip(1),
            links_of(pieces.take(i - 1)) == Ok::<Seq<LinkView>, DiagnosticView>(
                out@.map_values(|l: ImportedSocialLink| l@),
            ),
        decreases parts.len() - i,
    {
        proof {
            assert(pieces.take(i as int).drop_last() =~= pieces.take(i - 1));
            assert(pieces.take(i as int).last() == parts@[i as int]@);
        }
        let object = text_of(&cut_before(&parts[i], "},"));
        match read_link(object.as_str()) {
            Ok(l) => {
                proof {
                    assert(out@.push(l).map_values(|l: ImportedSocialLink| l@) =~= out@.map_values(
                        |l: ImportedSocialLink| l@,
                    ).push(l@));
                }
                out.push(l);
            },
            Err(d) => {
                proof {
                    lemma_links_take(pieces, i as int);
                }
                return Err(d);
            },
        }
        i += 1;
    }
    assert(pieces.take(pieces.len() as int) =~= pieces);
    Ok(out)
}

/// The social links of a ConnectPage source.
pub fn read_connect_links(text: &str, has_props: bool) -> (r: Result<
    Vec<ImportedSocialLink>,
    Diagnostic,
>)
    ensures
        match r {
            Ok(v) => connect_links(text@, has_props) == Ok::<Seq<LinkView>, DiagnosticView>(
                v@.map_values(|l: ImportedSocialLink| l@),
            ),
            Err(d) => connect_links(text@, has_props) == Err::<Seq<LinkView>, DiagnosticView>(d@),
        },
{
    proof {
        reveal_strlit("const socialLinks = [");
    }
    let all = chars_of(text);
    if let Some(d) = check_page(&all) {
        return Err(d);
    }
    if has_props {
        return Err(
            diag(
                "SNAPSHOT_PROPS_UNSUPPORTED",
                "ConnectPage does not accept visible props in this static branch",
                "props",
            ),
        );
    }
    match find_str(&all, "const socialLinks = [") {
        None => {
            proof {
                crate::text::lemma_contains_find(all@, "const socialLinks = ["@);
            }
            Err(changed("const socialLinks = ["))
        },
        Some(at) => {
            let rest = slice(&all, at + 21, all.len());
            assert(rest@ =~= all@.skip(at + 21));
            match find_str(&rest, "]") {
                None => Err(
                    diag("SOURCE_UNSUPPORTED", "socialLinks array is unterminated", "socialLinks"),
                ),
                Some(end) => {
                    let array = slice(&rest, 0, end);
                    assert(array@ =~= rest@.take(end as int));
                    match read_links(&array) {
                        Err(d) => Err(d),
                        Ok(links) => if links.len() == 0 || links.len() > MAX_LINKS {
                            Err(
                                diag(
                                    "SOURCE_UNSUPPORTED",
                                    "ConnectPage requires between one and eight literal social links",
                                    "socialLinks",
                                ),
                            )
                        } else {
                            Ok(links)
                        },
                    }
                },
            }
        },
    }
}

/// The literal texts of the page.
#[verifier::ext_equal]
pub struct TextsView {
    pub title: Seq<char>,
    pub subtitle: Seq<char>,
    pub mailing_title: Seq<char>,
    pub mailing_body: Seq<char>,
    pub follow_title: Seq<char>,
    pub follow_body: Seq<char>,
}

#[derive(Debug)]
pub struct ConnectTexts {
    pub title: String,
    pub subtitle: String,
    pub mailing_title: String,
    pub mailing_body: String,
    pub follow_title: String,
    pub follow_body: String,
}

impl View for ConnectTexts {
    type V = TextsView;

    open spec fn view(&self) -> TextsView {
        TextsView {
            title: self.title@,
            subtitle: self.subtitle@,
            mailing_title: self.mailing_title@,
            mailing_body: self.mailing_body@,
            follow_title: self.follow_title@,
            follow_body: self.follow_body@,
        }
    }
}

/// The texts of the page: both cards have a heading and a paragraph of the same
/// form, the mailing card first.
pub open spec fn connect_texts(s: Seq<char>) -> Result<TextsView, DiagnosticView> {
    let heading = "<h2 className=\"mb-1 text-lg font-semibold\">"@;
    let paragraph = "<p className=\"mb-4 text-sm text-muted-foreground\">"@;
    match page_text_after(s, "<h1 className=\"mb-3 text-4xl font-bold tracking-tight\">"@, 0) {
        Err(d) => Err(d),
        Ok(title) => match page_text_after(s, "<p className=\"text-muted-foreground\">"@, 0) {
            Err(d) => Err(d),
            Ok(subtitle) => match page_text_after(s, heading, 0) {
                Err(d) => Err(d),
                Ok(mailing_title) => match page_text_after(s, heading, 1) {
                    Err(d) => Err(d),
                    Ok(follow_title) => match page_text_after(s, paragraph, 0) {
                        Err(d) => Err(d),
                        Ok(mailing_body) => match page_text_after(s, paragraph, 1) {
                            Err(d) => Err(d),
                            Ok(follow_body) => Ok(
                                TextsView {
                                    title,
                                    subtitle,
                                    mailing_title,
                                    mailing_body,
                                    follow_title,
                                    follow_body,
                                },
                            ),
                        },
                    },
                },
            },
        },
    }
}

/// The texts of a ConnectPage source.
pub fn read_connect_texts(text: &str) -> (r: Result<ConnectTexts, Diagnostic>)
    ensures
        match r {
            Ok(t) => connect_texts(text@) == Ok::<TextsView, DiagnosticView>(t@),
            Err(d) => connect_texts(text@) == Err::<TextsView, DiagnosticView>(d@),
        },
{
    let title = match static_source_field_after(
        text,
        "<h1 className=\"mb-3 text-4xl font-bold tracking-tight\">",
    ) {
        Ok(v) => v,
        Err(d) => {
            return Err(d);
        },
    };
    let subtitle = match static_source_field_after(
        text,
        "<p className=\"text-muted-foreground\">",
    ) {
        Ok(v) => v,
        Err(d) => {
            return Err(d);
        },
    };
    let mailing_title = match static_source_field_after(
        text,
        "<h2 className=\"mb-1 text-lg font-semibold\">",
    ) {
        Ok(v) => v,
        Err(d) => {
            return Err(d);
        },
    };
    let follow_title = match static_source_field_after_nth(
        text,
        "<h2 className=\"mb-1 text-lg font-semibold\">",
        1,
    ) {
        Ok(v) => v,
        Err(d) => {
            return Err(d);
        },
    };
    let mailing_body = match static_source_field_after(
        text,
        "<p className=\"mb-4 text-sm text-muted-foreground\">",
    ) {
        Ok(v) => v,
        Err(d) => {
            return Err(d);
        },
    };
    let follow_body = match static_source_field_after_nth(
        text,
        "<p className=\"mb-4 text-sm text-muted-foreground\">",
        1,
    ) {
        Ok(v) => v,
        Err(d) => {
            return Err(d);
        },
    };
    Ok(
        ConnectTexts { title, subtitle, mailing_title, mailing_body, follow_title, follow_body },
    )
}

/// What the rows of `n` links need: they begin 116 pixels below the top of the
/// card and are 70 apart; the last is 54 high and has 24 pixels below it.
pub open spec fn rows_height(n: nat) -> Double {
    f_add(
        f_add(
            f_add(
                whole(116),
                f_mul(
                    f_sub(
                        whole(
                            if n >= 1 {
                                n
                            } else {
                                1
                            },
                        ),
                        whole(1),
                    ),
                    whole(70),
                ),
            ),
            whole(54),
        ),
        whole(24),
    )
}

/// The height of the cards: what the viewport leaves, but at least 360 pixels and
/// at least what the rows need.
pub open spec fn card_height(viewport_height: Double, links: nat) -> Double {
    f_max(f_max(f_sub(viewport_height, whole(236)), whole(360)), rows_height(links))
}

/// The height of the page: the viewport, or what a card 188 pixels below the top
/// and 48 pixels above the bottom needs.
pub open spec fn canvas_height(viewport_height: Double, card: Double) -> Double {
    f_max(viewport_height, f_add(f_add(whole(188), card), whole(48)))
}

pub fn connect_page_card_height(viewport_height: Double, link_count: usize) -> (r: Double)
    ensures
        r == card_height(viewport_height, link_count as nat),
{
    let base = maximum(minus(viewport_height, from_count(236)), from_count(360));
    let count: u64 = if link_count >= 1 {
        link_count as u64
    } else {
        1
    };
    let rows = times(minus(from_count(count), from_count(1)), from_count(70));
    let required = plus(plus(plus(from_count(116), rows), from_count(54)), from_count(24));
    maximum(base, required)
}

pub fn connect_page_canvas_height(viewport_height: Double, card_height: Double) -> (r: Double)
    ensures
        r == canvas_height(viewport_height, card_height),
{
    maximum(viewport_height, plus(plus(from_count(188), card_height), from_count(48)))
}

/// However high the viewport is, the card is at least as high as the rows of any
/// accepted number of links with the room below the last of them.
pub proof fn law_card_contains_all_rows(viewport_height: Double, links: nat)
    requires
        1 <= links <= MAX_LINKS,
    ensures
        rows_height(links) == whole((116 + (links - 1) * 70 + 54 + 24) as nat),
        card_height(viewport_height, links).key() >= whole(
            (116 + (links - 1) * 70 + 54 + 24) as nat,
        ).key(),
{
    lemma_whole_difference(links, 1);
    lemma_whole_product((links - 1) as nat, 70);
    let rows = ((links - 1) * 70) as nat;
    lemma_whole_sum(116, rows);
    lemma_whole_sum(116 + rows, 54);
    lemma_whole_sum(116 + rows + 54, 24);
    lemma_whole(116 + rows + 54 + 24);
}

/// The page is at least as high as the viewport, and reaches 48 pixels below a
/// card that starts 188 pixels below the top.
pub proof fn law_canvas_contains_card(viewport_height: Double, card: Double)
    requires
        !viewport_height.is_nan(),
        !f_add(f_add(whole(188), card), whole(48)).is_nan(),
    ensures
        canvas_height(viewport_height, card).key() >= viewport_height.key(),
        canvas_height(viewport_height, card).key() >= f_add(
            f_add(whole(188), card),
            whole(48),
        ).key(),
{
}

/// A page is accepted only with one to eight links.
pub proof fn law_accepted_page_has_links(s: Seq<char>, has_props: bool)
    requires
        connect_links(s, has_props) is Ok,
    ensures
        1 <= connect_links(s, has_props)->Ok_0.len() <= MAX_LINKS,
{
}


/// A link has the address, the label and the handle that its entry writes under these words.
pub proof fn law_link_is_as_written(object: Seq<char>)
    ensures
        link_of(object) matches Ok(l) ==> {
            &&& writes_field(object, "href"@, l.href)
            &&& writes_field(object, "label"@, l.label)
            &&& writes_field(object, "handle"@, l.handle)
            &&& identifier_after(object, "Icon"@) == Ok::<Seq<char>, DiagnosticView>(l.icon)
        },
{
    law_fields_are_read_as_written(object, "href"@);
    law_fields_are_read_as_written(object, "label"@);
    law_fields_are_read_as_written(object, "handle"@);
}

/// The links of a page are those of its entries, in their order.
pub proof fn law_links_follow_the_entries(pieces: Seq<Seq<char>>, i: int)
    requires
        0 <= i < pieces.len(),
    ensures
        links_of(pieces) matches Ok(ls) ==> ls.len() == pieces.len() && link_of(
            before(pieces[i], "},"@),
        ) == Ok::<LinkView, DiagnosticView>(ls[i]),
    decreases pieces.len(),
{
    if links_of(pieces) is Ok {
        let less = pieces.drop_last();
        if i < less.len() {
            law_links_follow_the_entries(less, i);
            assert(less[i] == pieces[i]);
        } else if less.len() > 0 {
            law_links_follow_the_entries(less, 0);
        } else {
            assert(links_of(less) == Ok::<Seq<LinkView>, DiagnosticView>(Seq::empty()));
        }
    }
}

/// Of two texts under the same kind of heading, the one of the mailing list comes first in
/// the page and that of the links second; so do their paragraphs.
pub proof fn law_mailing_comes_first(s: Seq<char>)
    ensures
        connect_texts(s) matches Ok(t) ==> {
            let heading = "<h2 className=\"mb-1 text-lg font-semibold\">"@;
            let paragraph = "<p className=\"mb-4 text-sm text-muted-foreground\">"@;
            &&& page_text_after(s, heading, 0) == Ok::<Seq<char>, DiagnosticView>(t.mailing_title)
            &&& page_text_after(s, heading, 1) == Ok::<Seq<char>, DiagnosticView>(t.follow_title)
            &&& page_text_after(s, paragraph, 0) == Ok::<Seq<char>, DiagnosticView>(t.mailing_body)
            &&& page_text_after(s, paragraph, 1) == Ok::<Seq<char>, DiagnosticView>(t.follow_body)
            &&& nth_end(s, heading, 0, 0)->0 < nth_end(
                s,
                heading,
                1,
                0,
            )->0
        },
{
    let heading = "<h2 className=\"mb-1 text-lg font-semibold\">"@;
    reveal_strlit("<h2 className=\"mb-1 text-lg font-semibold\">");
    if connect_texts(s) is Ok {
        lemma_find_from(s, heading, 0);
        let at = find_from(s, heading, 0)->0;
        lemma_find_from(s, heading, at + heading.len());
        assert(nth_end(s, heading, 0, at + heading.len() as int) is Some);
    }
}

} // verus!
