//! The light theme of a token file: HSL triples become hex colours.
use crate::diagnostic::{diag, diagnosed, Diagnostic, DiagnosticView};
use crate::double::{denotes, lemma_denotes_unique, parse_double, writes_finite, Double};
use crate::float::{
    absolute, byte_of, divided, f_abs, f_add, f_div, f_mul, f_neg, f_rem_euclid, f_sub, is_byte_of,
    minus, plus, remainder_euclid, times,
};
use crate::steps::{lemma_neg, lemma_nothing_times, lemma_plus_nothing, lemma_zero_value};
use crate::text::{
    after, before, chars_of, find, find_str, lemma_find_from, option_text, push_str, slice,
    split_words, starts_with, starts_with_str, text_of, trim, trimmed, words,
};
use vstd::prelude::*;

verus! {

/// The number that `s` denotes.
pub open spec fn denoted(s: Seq<char>) -> Double {
    choose|x: Double| denotes(s, x)
}

/// A hue in degrees, and a saturation and a lightness from 0 to 1.
pub struct Hsl {
    pub h: Double,
    pub s: Double,
    pub l: Double,
}

/// A percentage, as a share of one: the number in front of `%`, over 100.
pub open spec fn share(part: Seq<char>) -> Double {
    f_div(denoted(part.drop_last()), (Double { bits: 0x4059_0000_0000_0000 }))
}

/// A text is a number followed by `%`, from 0% to 100%.
pub open spec fn is_share(part: Seq<char>) -> bool {
    &&& part.len() > 0
    &&& part.last() == '%'
    &&& writes_finite(part.drop_last())
    &&& 0 <= share(part).key() <= 0x3ff0_0000_0000_0000
}

/// The three components of `H S% L%`.
pub open spec fn hsl_of(value: Seq<char>) -> Option<Hsl> {
    let parts = words(value);
    if parts.len() == 3 && writes_finite(parts[0]) && is_share(parts[1]) && is_share(parts[2]) {
        Some(Hsl { h: denoted(parts[0]), s: share(parts[1]), l: share(parts[2]) })
    } else {
        None
    }
}

/// The chroma: how far the largest and the smallest channel are apart.
pub open spec fn chroma(c: Hsl) -> Double {
    f_mul(
        f_sub(
            (Double { bits: 0x3ff0_0000_0000_0000 }),
            f_abs(
                f_sub(
                    f_mul((Double { bits: 0x4000_0000_0000_0000 }), c.l),
                    (Double { bits: 0x3ff0_0000_0000_0000 }),
                ),
            ),
        ),
        c.s,
    )
}

/// The hue on a circle of six sectors.
pub open spec fn sector_position(c: Hsl) -> Double {
    f_div(
        f_rem_euclid(c.h, (Double { bits: 0x4076_8000_0000_0000 })),
        (Double { bits: 0x404e_0000_0000_0000 }),
    )
}

/// The middle one of the three channels, before the lightness is added.
pub open spec fn middle_channel(c: Hsl) -> Double {
    f_mul(
        chroma(c),
        f_sub(
            (Double { bits: 0x3ff0_0000_0000_0000 }),
            f_abs(
                f_sub(
                    f_rem_euclid(sector_position(c), (Double { bits: 0x4000_0000_0000_0000 })),
                    (Double { bits: 0x3ff0_0000_0000_0000 }),
                ),
            ),
        ),
    )
}

/// What is added to every channel.
pub open spec fn lightness_offset(c: Hsl) -> Double {
    f_sub(c.l, f_div(chroma(c), (Double { bits: 0x4000_0000_0000_0000 })))
}

/// The channels before the offset is added, by the sector of the hue.
pub open spec fn base_channels(c: Hsl) -> (Double, Double, Double) {
    let p = sector_position(c).key();
    let high = chroma(c);
    let mid = middle_channel(c);
    let zero = (Double { bits: 0 });
    if p < 0x3ff0_0000_0000_0000 {
        (high, mid, zero)
    } else if p < 0x4000_0000_0000_0000 {
        (mid, high, zero)
    } else if p < 0x4008_0000_0000_0000 {
        (zero, high, mid)
    } else if p < 0x4010_0000_0000_0000 {
        (zero, mid, high)
    } else if p < 0x4014_0000_0000_0000 {
        (mid, zero, high)
    } else {
        (high, zero, mid)
    }
}

/// A channel scaled to 0..255.
pub open spec fn channel_value(base: Double, offset: Double) -> Double {
    f_mul(f_add(base, offset), (Double { bits: 0x406f_e000_0000_0000 }))
}

pub open spec fn hex_digit(n: nat) -> char {
    if n < 10 {
        (48 + n) as char
    } else {
        (87 + n) as char
    }
}

/// A byte as two hex digits.
pub open spec fn hex_byte(b: u8) -> Seq<char> {
    seq![hex_digit((b / 16) as nat), hex_digit((b % 16) as nat)]
}

/// `#rrggbb`.
pub open spec fn hex_color(r: u8, g: u8, b: u8) -> Seq<char> {
    "#"@ + hex_byte(r) + hex_byte(g) + hex_byte(b)
}

/// The colour with these components, as `#rrggbb`.
pub open spec fn is_hex_of(c: Hsl, text: Seq<char>) -> bool {
    let base = base_channels(c);
    let offset = lightness_offset(c);
    exists|r: u8, g: u8, b: u8|
        #![trigger hex_color(r, g, b)]
        is_byte_of(channel_value(base.0, offset), r) && is_byte_of(
            channel_value(base.1, offset),
            g,
        ) && is_byte_of(channel_value(base.2, offset), b) && text == hex_color(r, g, b)
}

fn push_hex(out: &mut Vec<char>, b: u8)
    ensures
        final(out)@ == old(out)@ + hex_byte(b),
{
    let ghost start = out@;
    let high: u8 = b / 16;
    let low: u8 = b % 16;
    out.push(
        (if high < 10 {
            48u8 + high
        } else {
            87u8 + high
        }) as char,
    );
    out.push(
        (if low < 10 {
            48u8 + low
        } else {
            87u8 + low
        }) as char,
    );
    assert(out@ =~= start + hex_byte(b));
}

/// The number that `s` denotes, where it writes a finite one.
fn read_number(s: &Vec<char>) -> (r: Option<Double>)
    ensures
        match r {
            Some(x) => writes_finite(s@) && x == denoted(s@),
            None => !writes_finite(s@),
        },
{
    let text = text_of(s);
    match parse_double(text.as_str()) {
        Some(x) => {
            proof {
                lemma_denotes_unique(s@, x, denoted(s@));
            }
            Some(x)
        },
        None => None,
    }
}

fn read_share(part: &Vec<char>) -> (r: Option<Double>)
    ensures
        match r {
            Some(x) => is_share(part@) && x == share(part@),
            None => !is_share(part@),
        },
{
    if part.len() == 0 || part[part.len() - 1] != '%' {
        return None;
    }
    let number = slice(part, 0, part.len() - 1);
    assert(number@ =~= part@.drop_last());
    match read_number(&number) {
        None => None,
        Some(x) => {
            let r = divided(x, (Double { bits: 0x4059_0000_0000_0000 }));
            if (Double { bits: 0 }).at_most(r) && r.at_most(
                (Double { bits: 0x3ff0_0000_0000_0000 }),
            ) {
                Some(r)
            } else {
                None
            }
        },
    }
}

fn read_hsl(value: &Vec<char>) -> (r: Option<Hsl>)
    ensures
        match r {
            Some(c) => hsl_of(value@) == Some(c),
            None => hsl_of(value@) is None,
        },
{
    let parts = split_words(value);
    if parts.len() != 3 {
        return None;
    }
    proof {
        assert(parts@[0]@ == words(value@)[0]);
        assert(parts@[1]@ == words(value@)[1]);
        assert(parts@[2]@ == words(value@)[2]);
    }
    match read_number(&parts[0]) {
        None => None,
        Some(h) => match read_share(&parts[1]) {
            None => None,
            Some(s) => match read_share(&parts[2]) {
                None => None,
                Some(l) => Some(Hsl { h, s, l }),
            },
        },
    }
}

fn chroma_of(c: &Hsl) -> (r: Double)
    ensures
        r == chroma(*c),
{
    let one = Double { bits: 0x3ff0_0000_0000_0000 };
    let twice = times((Double { bits: 0x4000_0000_0000_0000 }), c.l);
    let spread = minus(one, absolute(minus(twice, one)));
    times(spread, c.s)
}

fn channel_byte(base: Double, offset: Double) -> (r: u8)
    ensures
        is_byte_of(channel_value(base, offset), r),
{
    byte_of(times(plus(base, offset), (Double { bits: 0x406f_e000_0000_0000 })))
}

fn hex_of(c: &Hsl) -> (r: Vec<char>)
    ensures
        is_hex_of(*c, r@),
{
    let one = Double { bits: 0x3ff0_0000_0000_0000 };
    let two = Double { bits: 0x4000_0000_0000_0000 };
    let zero = Double { bits: 0 };
    let high = chroma_of(c);
    let turn = remainder_euclid(c.h, (Double { bits: 0x4076_8000_0000_0000 }));
    let position = divided(turn, (Double { bits: 0x404e_0000_0000_0000 }));
    let inner = minus(remainder_euclid(position, two), one);
    let mid = times(high, minus(one, absolute(inner)));
    let (r, g, b) = if !one.at_most(position) {
        (high, mid, zero)
    } else if !two.at_most(position) {
        (mid, high, zero)
    } else if !(Double { bits: 0x4008_0000_0000_0000 }).at_most(position) {
        (zero, high, mid)
    } else if !(Double { bits: 0x4010_0000_0000_0000 }).at_most(position) {
        (zero, mid, high)
    } else if !(Double { bits: 0x4014_0000_0000_0000 }).at_most(position) {
        (mid, zero, high)
    } else {
        (high, zero, mid)
    };
    let offset = minus(c.l, divided(high, two));
    assert((r, g, b) == base_channels(*c));
    let red = channel_byte(r, offset);
    let green = channel_byte(g, offset);
    let blue = channel_byte(b, offset);
    let mut out = chars_of("#");
    push_hex(&mut out, red);
    push_hex(&mut out, green);
    push_hex(&mut out, blue);
    assert(out@ == hex_color(red, green, blue));
    out
}

/// What `hsl_to_hex` gives for a text.
pub open spec fn is_hex_result(value: Seq<char>, r: Option<Seq<char>>) -> bool {
    match r {
        Some(text) => hsl_of(value) matches Some(c) && is_hex_of(c, text),
        None => hsl_of(value) is None,
    }
}

/// The hex colour of `H S% L%`.
pub fn hsl_to_hex(value: &str) -> (r: Option<String>)
    ensures
        is_hex_result(value@, option_text(r)),
{
    match read_hsl(&chars_of(value)) {
        None => None,
        Some(c) => Some(text_of(&hex_of(&c))),
    }
}

/// The colours of a page.
#[derive(Debug)]
pub struct Theme {
    pub card: String,
    pub foreground: String,
    pub muted: String,
    pub border: String,
}

/// The lines of `s`, without the line feeds between them.
pub open spec fn lines(s: Seq<char>) -> Seq<Seq<char>>
    decreases s.len(),
{
    match find(s, "\n"@) {
        None => seq![s],
        Some(at) => {
            proof {
                reveal_strlit("\n");
                lemma_find_from(s, "\n"@, 0);
            }
            seq![s.take(at)] + lines(s.skip(at + 1))
        },
    }
}

/// The value of the first line that declares `marker`, up to the semicolon.
pub open spec fn declared_value(ls: Seq<Seq<char>>, marker: Seq<char>) -> Option<Seq<char>>
    decreases ls.len(),
{
    if ls.len() == 0 {
        None
    } else if starts_with(trim(ls[0]), marker) {
        Some(before(trim(ls[0]).skip(marker.len() as int), ";"@))
    } else {
        declared_value(ls.skip(1), marker)
    }
}

/// The body of the first `:root` block.
pub open spec fn root_block(s: Seq<char>) -> Result<Seq<char>, DiagnosticView> {
    match find(s, ":root"@) {
        None => Err(
            diagnosed(
                "THEME_TOKENS_UNSUPPORTED"@,
                "theme requires a light :root block"@,
                ":root"@,
            ),
        ),
        Some(start) => match after(s.skip(start), "{"@) {
            None => Err(
                diagnosed(
                    "THEME_TOKENS_UNSUPPORTED"@,
                    "light :root block is malformed"@,
                    ":root"@,
                ),
            ),
            Some(body) => match find(body, "}"@) {
                None => Err(
                    diagnosed(
                        "THEME_TOKENS_UNSUPPORTED"@,
                        "light :root block is unterminated"@,
                        ":root"@,
                    ),
                ),
                Some(close) => Ok(body.take(close)),
            },
        },
    }
}

/// The trimmed value of the token `name`, or why there is no colour for it.
pub open spec fn token_value(block: Seq<char>, name: Seq<char>) -> Result<Seq<char>, DiagnosticView> {
    match declared_value(lines(block), "--"@ + name + ":"@) {
        None => Err(
            diagnosed("THEME_TOKEN_MISSING"@, "required light theme token is missing"@, name),
        ),
        Some(value) => if hsl_of(trim(value)) is None {
            Err(
                diagnosed(
                    "THEME_TOKEN_UNSUPPORTED"@,
                    "theme token must be a literal H S% L% value"@,
                    trim(value),
                ),
            )
        } else {
            Ok(trim(value))
        },
    }
}

/// `text` is the hex colour of the token `name`.
pub open spec fn is_token_color(block: Seq<char>, name: Seq<char>, text: Seq<char>) -> bool {
    token_value(block, name) matches Ok(v) && is_hex_of(hsl_of(v)->0, text)
}

/// The first of the four tokens of a theme that gives no colour.
pub open spec fn first_token_error(block: Seq<char>) -> Option<DiagnosticView> {
    match token_value(block, "card"@) {
        Err(d) => Some(d),
        Ok(_) => match token_value(block, "foreground"@) {
            Err(d) => Some(d),
            Ok(_) => match token_value(block, "muted-foreground"@) {
                Err(d) => Some(d),
                Ok(_) => match token_value(block, "border"@) {
                    Err(d) => Some(d),
                    Ok(_) => None,
                },
            },
        },
    }
}

fn find_declared(block: &Vec<char>, marker: &str) -> (r: Option<Vec<char>>)
    ensures
        match r {
            Some(v) => declared_value(lines(block@), marker@) == Some(v@),
            None => declared_value(lines(block@), marker@) is None,
        },
{
    proof {
        reveal_strlit("\n");
    }
    let width: usize = chars_of(marker).len();
    let mut rest = slice(block, 0, block.len());
    assert(rest@ =~= block@);
    loop
        invariant
            "\n"@.len() == 1,
            width == marker@.len(),
            declared_value(lines(block@), marker@) == declared_value(lines(rest@), marker@),
        decreases rest.len(),
    {
        let end = find_str(&rest, "\n");
        let stop: usize = match end {
            Some(at) => at,
            None => rest.len(),
        };
        let line = slice(&rest, 0, stop);
        let ghost here = lines(rest@);
        proof {
            match end {
                Some(at) => {
                    assert(line@ =~= rest@.take(at as int));
                    assert(here[0] == line@);
                    assert(here.skip(1) =~= lines(rest@.skip(at + 1)));
                },
                None => {
                    assert(line@ =~= rest@);
                    assert(here[0] == line@);
                    assert(here.skip(1) =~= Seq::<Seq<char>>::empty());
                },
            }
        }
        let text = trimmed(&line);
        if starts_with_str(&text, marker) {
            let tail = slice(&text, width, text.len());
            assert(tail@ =~= text@.skip(width as int));
            return Some(
                match find_str(&tail, ";") {
                    Some(semi) => {
                        let cut = slice(&tail, 0, semi);
                        assert(cut@ =~= tail@.take(semi as int));
                        cut
                    },
                    None => tail,
                },
            );
        }
        match end {
            None => {
                assert(declared_value(Seq::<Seq<char>>::empty(), marker@) is None);
                return None;
            },
            Some(at) => {
                let next = slice(&rest, at + 1, rest.len());
                assert(next@ =~= rest@.skip(at + 1));
                rest = next;
            },
        }
    }
}

fn token_color(block: &Vec<char>, name: &str) -> (r: Result<String, Diagnostic>)
    ensures
        match r {
            Ok(text) => is_token_color(block@, name@, text@),
            Err(d) => token_value(block@, name@) == Err::<Seq<char>, DiagnosticView>(d@),
        },
{
    let mut marker = chars_of("--");
    push_str(&mut marker, name);
    push_str(&mut marker, ":");
    let marker_text = text_of(&marker);
    match find_declared(block, marker_text.as_str()) {
        None => Err(diag("THEME_TOKEN_MISSING", "required light theme token is missing", name)),
        Some(value) => {
            let bare = trimmed(&value);
            match read_hsl(&bare) {
                Some(c) => Ok(text_of(&hex_of(&c))),
                None => {
                    let shown = text_of(&bare);
                    Err(
                        diag(
                            "THEME_TOKEN_UNSUPPORTED",
                            "theme token must be a literal H S% L% value",
                            shown.as_str(),
                        ),
                    )
                },
            }
        },
    }
}

fn read_root_block(source: &Vec<char>) -> (r: Result<Vec<char>, Diagnostic>)
    ensures
        match r {
            Ok(v) => root_block(source@) == Ok::<Seq<char>, DiagnosticView>(v@),
            Err(d) => root_block(source@) == Err::<Seq<char>, DiagnosticView>(d@),
        },
{
    proof {
        reveal_strlit("{");
    }
    match find_str(source, ":root") {
        None => Err(
            diag("THEME_TOKENS_UNSUPPORTED", "theme requires a light :root block", ":root"),
        ),
        Some(start) => {
            let body = slice(source, start, source.len());
            assert(body@ =~= source@.skip(start as int));
            match find_str(&body, "{") {
                None => Err(
                    diag("THEME_TOKENS_UNSUPPORTED", "light :root block is malformed", ":root"),
                ),
                Some(open) => {
                    let inner = slice(&body, open + 1, body.len());
                    assert(inner@ =~= body@.skip(open + 1));
                    match find_str(&inner, "}") {
                        None => Err(
                            diag(
                                "THEME_TOKENS_UNSUPPORTED",
                                "light :root block is unterminated",
                                ":root",
                            ),
                        ),
                        Some(close) => {
                            let block = slice(&inner, 0, close);
                            assert(block@ =~= inner@.take(close as int));
                            Ok(block)
                        },
                    }
                },
            }
        },
    }
}

/// The light theme that a token file declares.
pub fn parse_light_theme(source: &str) -> (r: Result<Theme, Diagnostic>)
    ensures
        match root_block(source@) {
            Err(e) => r matches Err(d) && d@ == e,
            Ok(block) => match first_token_error(block) {
                Some(e) => r matches Err(d) && d@ == e,
                None => r matches Ok(t) && is_token_color(block, "card"@, t.card@)
                    && is_token_color(block, "foreground"@, t.foreground@) && is_token_color(
                    block,
                    "muted-foreground"@,
                    t.muted@,
                ) && is_token_color(block, "border"@, t.border@),
            },
        },
{
    let block = match read_root_block(&chars_of(source)) {
        Ok(block) => block,
        Err(d) => {
            return Err(d);
        },
    };
    let card = match token_color(&block, "card") {
        Ok(c) => c,
        Err(d) => {
            return Err(d);
        },
    };
    let foreground = match token_color(&block, "foreground") {
        Ok(c) => c,
        Err(d) => {
            return Err(d);
        },
    };
    let muted = match token_color(&block, "muted-foreground") {
        Ok(c) => c,
        Err(d) => {
            return Err(d);
        },
    };
    let border = match token_color(&block, "border") {
        Ok(c) => c,
        Err(d) => {
            return Err(d);
        },
    };
    Ok(Theme { card, foreground, muted, border })
}

/// The outcome of overriding the colour `source` by `token`: the colour that
/// counts must be a hex colour, which `is_hex` says.
pub open spec fn paint_result(chosen: Seq<char>, is_hex: bool) -> Result<Seq<char>, Seq<char>> {
    if is_hex {
        Ok(chosen)
    } else {
        Err("theme token must be hex: "@ + chosen)
    }
}

/// The colour that counts for a role: the given token, or the source's colour.
pub open spec fn chosen_paint(token: Option<Seq<char>>, source: Seq<char>) -> Seq<char> {
    match token {
        Some(t) => t,
        None => source,
    }
}

/// The colour that counts for a role.
pub fn choose_paint(token: &Option<String>, source: &str) -> (r: String)
    ensures
        r@ == chosen_paint(option_text(*token), source@),
{
    match token {
        Some(t) => t.clone(),
        None => source.to_owned(),
    }
}

/// The colour `chosen`, where it is a hex colour.
fn admit_paint(chosen: String, is_hex: bool) -> (r: Result<String, String>)
    ensures
        match r {
            Ok(t) => paint_result(chosen@, is_hex) == Ok::<Seq<char>, Seq<char>>(t@),
            Err(e) => paint_result(chosen@, is_hex) == Err::<Seq<char>, Seq<char>>(e@),
        },
{
    if is_hex {
        Ok(chosen)
    } else {
        let mut message = chars_of("theme token must be hex: ");
        push_str(&mut message, chosen.as_str());
        Err(text_of(&message))
    }
}

/// The colours that a caller gives in place of those of the source.
#[derive(Debug)]
pub struct ThemeTokens {
    pub card: Option<String>,
    pub foreground: Option<String>,
    pub muted_foreground: Option<String>,
    pub border: Option<String>,
}

/// The colours that count, before it is known whether they are hex colours.
pub open spec fn chosen_paints(tokens: ThemeTokens, source: Theme) -> Seq<Seq<char>> {
    seq![
        chosen_paint(option_text(tokens.card), source.card@),
        chosen_paint(option_text(tokens.foreground), source.foreground@),
        chosen_paint(option_text(tokens.muted_foreground), source.muted@),
        chosen_paint(option_text(tokens.border), source.border@),
    ]
}

/// The first of the colours that is no hex colour.
pub open spec fn first_bad_paint(paints: Seq<Seq<char>>, is_hex: Seq<bool>) -> Option<Seq<char>>
    decreases paints.len(),
{
    if paints.len() == 0 || is_hex.len() == 0 {
        None
    } else if !is_hex[0] {
        Some(paints[0])
    } else {
        first_bad_paint(paints.skip(1), is_hex.skip(1))
    }
}

/// The theme of a page: the given tokens in front of the source's colours.
/// `is_hex` says of the four chosen colours, in the order of the fields, which
/// are hex colours.
pub fn theme(tokens: &ThemeTokens, source: &Theme, is_hex: [bool; 4]) -> (r: Result<Theme, String>)
    ensures
        match first_bad_paint(chosen_paints(*tokens, *source), is_hex@) {
            Some(bad) => r matches Err(e) && e@ == "theme token must be hex: "@ + bad,
            None => r matches Ok(t) && seq![t.card@, t.foreground@, t.muted@, t.border@]
                == chosen_paints(*tokens, *source),
        },
{
    proof {
        reveal_with_fuel(first_bad_paint, 5);
    }
    let card = match admit_paint(choose_paint(&tokens.card, source.card.as_str()), is_hex[0]) {
        Ok(c) => c,
        Err(e) => {
            return Err(e);
        },
    };
    let foreground = match admit_paint(
        choose_paint(&tokens.foreground, source.foreground.as_str()),
        is_hex[1],
    ) {
        Ok(c) => c,
        Err(e) => {
            return Err(e);
        },
    };
    let muted = match admit_paint(
        choose_paint(&tokens.muted_foreground, source.muted.as_str()),
        is_hex[2],
    ) {
        Ok(c) => c,
        Err(e) => {
            return Err(e);
        },
    };
    let border = match admit_paint(choose_paint(&tokens.border, source.border.as_str()), is_hex[3]) {
        Ok(c) => c,
        Err(e) => {
            return Err(e);
        },
    };
    Ok(Theme { card, foreground, muted, border })
}


/// Without saturation a colour is grey: its three channels are the same, and they depend on
/// the lightness alone.
pub proof fn law_unsaturated_colors_are_grey(c: Hsl)
    requires
        c.s.key() == 0,
        f_sub(
            (Double { bits: 0x3ff0_0000_0000_0000 }),
            f_abs(
                f_sub(
                    f_mul((Double { bits: 0x4000_0000_0000_0000 }), c.l),
                    (Double { bits: 0x3ff0_0000_0000_0000 }),
                ),
            ),
        ).wf(),
        f_sub(
            (Double { bits: 0x3ff0_0000_0000_0000 }),
            f_abs(
                f_sub(
                    f_rem_euclid(sector_position(c), (Double { bits: 0x4000_0000_0000_0000 })),
                    (Double { bits: 0x3ff0_0000_0000_0000 }),
                ),
            ),
        ).wf(),
        c.l.wf(),
    ensures
        base_channels(c).0.key() == 0,
        base_channels(c).1.key() == 0,
        base_channels(c).2.key() == 0,
        lightness_offset(c).key() == c.l.key(),
{
    let two = (Double { bits: 0x4000_0000_0000_0000 });
    let one = (Double { bits: 0x3ff0_0000_0000_0000 });
    let high = chroma(c);
    let a = f_sub(one, f_abs(f_sub(f_mul(two, c.l), one)));
    let b = f_sub(one, f_abs(f_sub(f_rem_euclid(sector_position(c), two), one)));
    lemma_nothing_times(c.s, a);
    lemma_nothing_times(high, b);
    assert(f_div(high, two).key() == 0) by {
        lemma_zero_value(high);
        reveal(f_div);
        lemma_zero_value(two);
    }
    let z = f_div(high, two);
    lemma_neg(z);
    lemma_plus_nothing(c.l, f_neg(z));
}

/// Round the circle of hues, from red over green and blue: in the sixth before red and the one
/// behind it red is full, and so for green and blue; opposite to where it is full, each
/// channel is empty.
pub proof fn law_hues_go_round(c: Hsl)
    ensures
        ({
            let p = sector_position(c).key();
            let (one, two, three, four, five) = (
                0x3ff0_0000_0000_0000int,
                0x4000_0000_0000_0000int,
                0x4008_0000_0000_0000int,
                0x4010_0000_0000_0000int,
                0x4014_0000_0000_0000int,
            );
            let (r, g, b) = base_channels(c);
            let zero = (Double { bits: 0 });
            &&& p < one || p >= five ==> r == chroma(c)
            &&& one <= p < three ==> g == chroma(c)
            &&& three <= p < five ==> b == chroma(c)
            &&& p < two ==> b == zero
            &&& two <= p < four ==> r == zero
            &&& p >= four ==> g == zero
            &&& p < one ==> g == middle_channel(c)
            &&& one <= p < two ==> r == middle_channel(c)
            &&& two <= p < three ==> b == middle_channel(c)
            &&& three <= p < four ==> g == middle_channel(c)
            &&& four <= p < five ==> r == middle_channel(c)
            &&& p >= five ==> b == middle_channel(c)
        }),
{
}

/// A colour is written with its red first, its green next and its blue last, each in the same
/// two digits wherever it stands.
pub proof fn law_hex_color_keeps_channels_apart(v: u8, x: u8, y: u8, z: u8)
    ensures
        hex_color(v, x, y).len() == 7,
        hex_color(v, x, y).subrange(1, 3) == hex_color(z, v, y).subrange(3, 5),
        hex_color(v, x, y).subrange(1, 3) == hex_color(z, x, v).subrange(5, 7),
        hex_color(v, x, y).subrange(1, 3) == hex_color(v, z, z).subrange(1, 3),
{
    reveal_strlit("#");
    assert("#"@.len() == 1);
    assert(hex_color(v, x, y).subrange(1, 3) =~= hex_byte(v));
    assert(hex_color(z, v, y).subrange(3, 5) =~= hex_byte(v));
    assert(hex_color(z, x, v).subrange(5, 7) =~= hex_byte(v));
    assert(hex_color(v, z, z).subrange(1, 3) =~= hex_byte(v));
}

/// The digits of a colour are those of its own channels: red, green and blue in this order.
pub proof fn law_digits_are_those_of_the_channels(c: Hsl, text: Seq<char>)
    requires
        is_hex_of(c, text),
    ensures
        exists|r: u8|
            is_byte_of(channel_value(base_channels(c).0, lightness_offset(c)), r)
                && text.subrange(1, 3) == #[trigger] hex_byte(r),
        exists|g: u8|
            is_byte_of(channel_value(base_channels(c).1, lightness_offset(c)), g)
                && text.subrange(3, 5) == #[trigger] hex_byte(g),
        exists|b: u8|
            is_byte_of(channel_value(base_channels(c).2, lightness_offset(c)), b)
                && text.subrange(5, 7) == #[trigger] hex_byte(b),
{
    let base = base_channels(c);
    let offset = lightness_offset(c);
    let (r, g, b) = choose|r: u8, g: u8, b: u8|
        #![trigger hex_color(r, g, b)]
        is_byte_of(channel_value(base.0, offset), r) && is_byte_of(
            channel_value(base.1, offset),
            g,
        ) && is_byte_of(channel_value(base.2, offset), b) && text == hex_color(r, g, b);
    reveal_strlit("#");
    assert("#"@.len() == 1);
    assert(text.subrange(1, 3) =~= hex_byte(r));
    assert(text.subrange(3, 5) =~= hex_byte(g));
    assert(text.subrange(5, 7) =~= hex_byte(b));
}

/// A token that is given is the paint that is chosen, each for its own place; without it the
/// paint is that of the source.
pub proof fn law_given_tokens_are_chosen(tokens: ThemeTokens, source: Theme)
    ensures
        ({
            let p = chosen_paints(tokens, source);
            &&& p.len() == 4
            &&& tokens.card is None ==> p[0] == source.card@
            &&& tokens.foreground is None ==> p[1] == source.foreground@
            &&& tokens.muted_foreground is None ==> p[2] == source.muted@
            &&& tokens.border is None ==> p[3] == source.border@
            &&& tokens.card matches Some(v) ==> p[0] == v@
            &&& tokens.foreground matches Some(v) ==> p[1] == v@
            &&& tokens.muted_foreground matches Some(v) ==> p[2] == v@
            &&& tokens.border matches Some(v) ==> p[3] == v@
        }),
{
}

} // verus!
