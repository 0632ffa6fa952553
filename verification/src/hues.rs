//! Laws of the colours that are written by hue, saturation and lightness.
use crate::bignum::{lemma_power_add, lemma_power_positive, power};
use crate::double::{
    behind_mantissa, decimal, denotes, digit_len, digits_value, exponent, fraction_len, has_point,
    is_digit, lemma_denotes_unique, mantissa, mantissa_digits, writes_finite, Double, BINADE,
};
use crate::float::{
    abs, exact, f_add, f_div, f_neg, f_rem, f_rem_euclid, f_sub, is_byte_of, is_near_byte,
    lemma_not_zero, lemma_rounded_exists, lemma_whole, negated_if, one_units, whole, zero,
};
use crate::text::{decimal_text, is_white, lemma_word_len, trim_start, word_len, words};
use crate::theme::{
    base_channels, channel_value, chroma, denoted, hex_byte, hex_color, hsl_of, is_hex_of,
    is_hex_result, lightness_offset, middle_channel, sector_position, Hsl,
};
use vstd::arithmetic::div_mod::{
    lemma_fundamental_div_mod, lemma_fundamental_div_mod_converse, lemma_mod_bound,
    lemma_small_mod,
};
use vstd::prelude::*;

verus! {

/// A whole number of degrees as it is written.
pub open spec fn hue_text(h: int) -> Seq<char> {
    if h < 0 {
        seq!['-'] + decimal_text((-h) as nat)
    } else {
        decimal_text(h as nat)
    }
}

/// A whole number of degrees as a number.
pub open spec fn hue(h: int) -> Double {
    negated_if(h < 0, whole(abs(h)))
}

proof fn lemma_decimal_digits(n: nat)
    ensures
        decimal_text(n).len() > 0,
        forall|i: int| 0 <= i < decimal_text(n).len() ==> is_digit(#[trigger] decimal_text(n)[i]),
        digits_value(decimal_text(n)) == n,
    decreases n,
{
    let t = decimal_text(n);
    if n < 10 {
        reveal_with_fuel(digits_value, 2);
        assert(t.drop_last() =~= Seq::<char>::empty());
    } else {
        lemma_decimal_digits(n / 10);
        assert(t.drop_last() =~= decimal_text(n / 10));
        assert forall|i: int| 0 <= i < t.len() implies is_digit(#[trigger] t[i]) by {
            if i < t.len() - 1 {
                assert(t[i] == decimal_text(n / 10)[i]);
            }
        }
    }
}

proof fn lemma_only_digits(t: Seq<char>)
    requires
        forall|i: int| 0 <= i < t.len() ==> is_digit(#[trigger] t[i]),
    ensures
        digit_len(t) == t.len(),
    decreases t.len(),
{
    if t.len() > 0 {
        assert forall|i: int| 0 <= i < t.skip(1).len() implies is_digit(#[trigger] t.skip(1)[i]) by {
            assert(t.skip(1)[i] == t[i + 1]);
        }
        lemma_only_digits(t.skip(1));
    }
}

/// A written hue denotes the number that it writes.
proof fn lemma_hue_denoted(h: int)
    requires
        abs(h) < 2 * BINADE,
    ensures
        writes_finite(hue_text(h)),
        denoted(hue_text(h)) == hue(h),
{
    let n = abs(h);
    let t = decimal_text(n);
    let s = hue_text(h);
    lemma_decimal_digits(n);
    lemma_only_digits(t);
    reveal(fraction_len);
    reveal(mantissa_digits);
    reveal(behind_mantissa);
    assert(t.take(t.len() as int) =~= t);
    assert(t.skip(t.len() as int) =~= Seq::<char>::empty());
    assert(!has_point(t));
    if h < 0 {
        assert(s[0] == '-');
        assert(s.skip(1) =~= t);
    } else {
        assert(is_digit(s[0]));
    }
    let d = decimal(s)->0;
    assert(d.digits == n && d.exponent == 0 && d.negative == (h < 0));
    assert(power(10, 0) == 1);
    assert(n * 1 == n);
    lemma_whole(n);
    lemma_rounded_exists(n as int, 1);
    let x = hue(h);
    assert(x.magnitude() == whole(n).magnitude());
    assert(denotes(s, x));
    lemma_denotes_unique(s, x, denoted(s));
}

/// A word in front of a blank is the first word.
proof fn lemma_first_word(w: Seq<char>, rest: Seq<char>)
    requires
        w.len() > 0,
        forall|i: int| 0 <= i < w.len() ==> !is_white(#[trigger] w[i]),
    ensures
        words(w + " "@ + rest) == seq![w] + words(rest),
{
    reveal_strlit(" ");
    let s = w + " "@ + rest;
    let n = w.len();
    assert(s[0] == w[0]);
    assert(trim_start(s) == s);
    lemma_word_len(s);
    let k = word_len(s);
    assert(s[n as int] == ' ');
    assert(is_white(' '));
    if k < n {
        assert(s[k as int] == w[k as int]);
    }
    assert(k == n);
    assert(s.take(k as int) =~= w);
    let tail = s.skip(k as int);
    assert(tail =~= " "@ + rest);
    assert(tail[0] == ' ');
    assert(tail.skip(1) =~= rest);
    assert(trim_start(tail) == trim_start(rest));
    assert(words(tail) == words(rest));
}

proof fn lemma_hue_word(h: int)
    ensures
        hue_text(h).len() > 0,
        forall|i: int| 0 <= i < hue_text(h).len() ==> !is_white(#[trigger] hue_text(h)[i]),
{
    let t = decimal_text(abs(h));
    lemma_decimal_digits(abs(h));
    assert forall|i: int| 0 <= i < hue_text(h).len() implies !is_white(
        #[trigger] hue_text(h)[i],
    ) by {
        if h < 0 {
            if i > 0 {
                assert(hue_text(h)[i] == t[i - 1]);
            }
        } else {
            assert(hue_text(h)[i] == t[i]);
        }
    }
}

/// A circle, 360 degrees.
spec fn circle() -> Double {
    Double { bits: 0x4076_8000_0000_0000 }
}

proof fn lemma_circle()
    ensures
        exact(circle()) == 360 * one_units(),
        circle().wf(),
        !circle().negative(),
{
    let c = circle().magnitude();
    assert(c / (BINADE as nat) == 1031 && c % (BINADE as nat) == 0x6_8000_0000_0000) by {
        lemma_fundamental_div_mod_converse(c as int, BINADE as int, 1031, 0x6_8000_0000_0000);
    }
    assert(mantissa(c) == BINADE + 0x6_8000_0000_0000);
    assert(exponent(c) == -44);
    lemma_power_add(2, 44, 1030);
    assert(power(2, 44) == 0x1000_0000_0000) by {
        lemma_power_add(2, 22, 22);
        reveal_with_fuel(power, 23);
    }
    let p = power(2, 1030);
    let m = mantissa(c);
    assert(m * p == 360 * (0x1000_0000_0000 * p)) by (nonlinear_arith)
        requires
            m == 360 * 0x1000_0000_0000,
    ;
}

/// The hue within a circle, up to the sign of a zero.
proof fn lemma_hue_turned(h: int)
    requires
        abs(h) < 2 * BINADE,
    ensures
        ({
            let r = f_rem_euclid(hue(h), circle());
            r == whole((h % 360) as nat) || (h % 360 == 0 && r == zero(true))
        }),
{
    let n = abs(h);
    let u = one_units();
    lemma_power_positive(2, 1074);
    lemma_circle();
    lemma_whole(n);
    let a = hue(h);
    let w = whole(n);
    assert(a.magnitude() == w.magnitude());
    assert(abs(exact(a)) == n * u);
    let q = n % 360;
    let d = n / 360;
    assert(n == 360 * d + q);
    assert(n * u == d * (360 * u) + q * u) by (nonlinear_arith)
        requires
            n == 360 * d + q,
    ;
    assert(0 <= q * u < 360 * u) by (nonlinear_arith)
        requires
            0 <= q < 360,
            u > 0,
    ;
    assert((n * u) as int % (360 * u) as int == q * u) by {
        lemma_fundamental_div_mod_converse(
            (n * u) as int,
            (360 * u) as int,
            d as int,
            (q * u) as int,
        );
    }
    lemma_whole(q);
    reveal(f_rem);
    let r = f_rem(a, circle());
    assert(a.negative() == (h < 0));
    assert(r == negated_if(h < 0, whole(q)));
    if h < 0 && q > 0 {
        lemma_whole((360 - q) as nat);
        if whole(q).magnitude() == 0 {
            lemma_zero_value(whole(q));
        }
        assert(r.key() < 0);
        reveal(f_add);
        assert(exact(r) == -(q * u));
        assert(360 * u - q * u == (360 - q) * u) by (nonlinear_arith);
        assert((360 - q) * u > 0) by (nonlinear_arith)
            requires
                q < 360,
                u > 0,
        ;
        assert(h % 360 == 360 - q);
    } else if h < 0 {
        assert(h % 360 == 0);
        assert(r == zero(true));
    } else {
        assert(h % 360 == q);
    }
}

/// Two numbers that differ at most in the sign of a zero.
spec fn alike(a: Double, b: Double) -> bool {
    a == b || (a.magnitude() == 0 && b.magnitude() == 0)
}

proof fn lemma_zero_value(a: Double)
    requires
        a.magnitude() == 0,
    ensures
        exact(a) == 0,
        a == zero(a.negative()),
{
    assert(mantissa(0) == 0);
    assert(0 * power(2, (exponent(0) + 1074) as nat) == 0) by (nonlinear_arith);
}

proof fn lemma_alike_divided(a: Double, b: Double)
    requires
        alike(a, b),
        b.magnitude() == 0 ==> a.magnitude() == 0,
    ensures
        ({
            let sixty = (Double { bits: 0x404e_0000_0000_0000 });
            alike(f_div(a, sixty), f_div(b, sixty))
        }),
{
    reveal(f_div);
    if a != b {
        lemma_zero_value(a);
        lemma_zero_value(b);
    }
}

proof fn lemma_alike_inner(a: Double, b: Double)
    requires
        alike(a, b),
    ensures
        ({
            let one = (Double { bits: 0x3ff0_0000_0000_0000 });
            let two = (Double { bits: 0x4000_0000_0000_0000 });
            f_sub(f_rem_euclid(a, two), one) == f_sub(f_rem_euclid(b, two), one)
        }),
{
    let one = (Double { bits: 0x3ff0_0000_0000_0000 });
    let two = (Double { bits: 0x4000_0000_0000_0000 });
    if a != b {
        lemma_zero_value(a);
        lemma_zero_value(b);
        reveal(f_rem);
        lemma_not_zero(two);
        lemma_small_mod(0, abs(exact(two)));
        lemma_whole(0);
        let u = one_units();
        assert(0 * u == 0);
        assert(f_rem(a, two) == negated_if(a.negative(), zero(false)));
        assert(f_rem(b, two) == negated_if(b.negative(), zero(false)));
        let x = f_rem_euclid(a, two);
        let y = f_rem_euclid(b, two);
        assert(x.magnitude() == 0 && y.magnitude() == 0);
        lemma_zero_value(x);
        lemma_zero_value(y);
        reveal(f_add);
        lemma_not_zero(f_neg(one));
    }
}

proof fn lemma_one_byte(x: Double, r: u8, s: u8)
    requires
        is_byte_of(x, r),
        is_byte_of(x, s),
    ensures
        r == s,
{
    let u = one_units();
    lemma_power_positive(2, 1074);
    if !x.is_nan() && r != s {
        let (a, b): (u8, u8) = if r < s {
            (r, s)
        } else {
            (s, r)
        };
        let e = 2 * exact(x);
        assert((2 * a + 1) * u <= (2 * b - 1) * u) by (nonlinear_arith)
            requires
                a < b,
                u > 0,
        ;
        assert(is_near_byte(x, a) && is_near_byte(x, b));
    }
}

/// A colour has one text.
proof fn lemma_one_hex(c: Hsl, d: Hsl, s: Seq<char>, t: Seq<char>)
    requires
        is_hex_of(c, s),
        is_hex_of(d, t),
        base_channels(c) == base_channels(d),
        lightness_offset(c) == lightness_offset(d),
    ensures
        s == t,
{
    let base = base_channels(c);
    let offset = lightness_offset(c);
    let (r1, g1, b1) = choose|r: u8, g: u8, b: u8|
        #![trigger hex_color(r, g, b)]
        is_byte_of(channel_value(base.0, offset), r) && is_byte_of(
            channel_value(base.1, offset),
            g,
        ) && is_byte_of(channel_value(base.2, offset), b) && s == hex_color(r, g, b);
    let (r2, g2, b2) = choose|r: u8, g: u8, b: u8|
        #![trigger hex_color(r, g, b)]
        is_byte_of(channel_value(base.0, offset), r) && is_byte_of(
            channel_value(base.1, offset),
            g,
        ) && is_byte_of(channel_value(base.2, offset), b) && t == hex_color(r, g, b);
    lemma_one_byte(channel_value(base.0, offset), r1, r2);
    lemma_one_byte(channel_value(base.1, offset), g1, g2);
    lemma_one_byte(channel_value(base.2, offset), b1, b2);
}

/// Whole turns of the hue leave a colour as it is: `hsl_to_hex` gives the same for a
/// hue of `h` degrees and one of `h + 360 * k`, whatever stands behind it.
pub proof fn law_whole_turns(
    h: int,
    k: int,
    rest: Seq<char>,
    a: Option<Seq<char>>,
    b: Option<Seq<char>>,
)
    requires
        abs(h) < 2 * BINADE,
        abs(h + 360 * k) < 2 * BINADE,
        is_hex_result(hue_text(h) + " "@ + rest, a),
        is_hex_result(hue_text(h + 360 * k) + " "@ + rest, b),
    ensures
        a == b,
{
    let g = h + 360 * k;
    let s = hue_text(h) + " "@ + rest;
    let t = hue_text(g) + " "@ + rest;
    lemma_hue_word(h);
    lemma_hue_word(g);
    lemma_first_word(hue_text(h), rest);
    lemma_first_word(hue_text(g), rest);
    lemma_hue_denoted(h);
    lemma_hue_denoted(g);
    let more = words(rest);
    assert(words(s).len() == more.len() + 1 && words(t).len() == more.len() + 1);
    assert(words(s)[0] == hue_text(h) && words(t)[0] == hue_text(g));
    if more.len() == 2 {
        assert(words(s)[1] == more[0] && words(t)[1] == more[0]);
        assert(words(s)[2] == more[1] && words(t)[2] == more[1]);
    }
    if let Some(c) = hsl_of(s) {
        let d = hsl_of(t)->0;
        lemma_hue_turned(h);
        lemma_hue_turned(g);
        assert(h % 360 == g % 360) by {
            lemma_fundamental_div_mod(h, 360);
            lemma_mod_bound(h, 360);
            lemma_fundamental_div_mod_converse(g, 360, h / 360 + k, h % 360);
        }
        let x = f_rem_euclid(c.h, circle());
        let y = f_rem_euclid(d.h, circle());
        lemma_whole(0);
        assert(alike(x, y));
        lemma_alike_divided(x, y);
        lemma_alike_inner(sector_position(c), sector_position(d));
        assert(chroma(c) == chroma(d));
        assert(middle_channel(c) == middle_channel(d));
        assert(base_channels(c) == base_channels(d));
        lemma_one_hex(c, d, a->0, b->0);
    }
}

/// A digit to the base 16, with small letters.
pub open spec fn is_small_hex(c: char) -> bool {
    is_digit(c) || 'a' <= c <= 'f'
}

/// A colour is written as `#` and six digits to the base 16 with small letters.
pub proof fn law_hex_form(value: Seq<char>, text: Seq<char>)
    requires
        is_hex_result(value, Some(text)),
    ensures
        text.len() == 7,
        text[0] == '#',
        forall|i: int| 1 <= i < 7 ==> is_small_hex(#[trigger] text[i]),
{
    reveal_strlit("#");
    let c = hsl_of(value)->0;
    let base = base_channels(c);
    let offset = lightness_offset(c);
    let (r, g, b) = choose|r: u8, g: u8, b: u8|
        #![trigger hex_color(r, g, b)]
        is_byte_of(channel_value(base.0, offset), r) && is_byte_of(
            channel_value(base.1, offset),
            g,
        ) && is_byte_of(channel_value(base.2, offset), b) && text == hex_color(r, g, b);
    lemma_hex_byte(r);
    lemma_hex_byte(g);
    lemma_hex_byte(b);
    assert(text[1] == hex_byte(r)[0] && text[2] == hex_byte(r)[1]);
    assert(text[3] == hex_byte(g)[0] && text[4] == hex_byte(g)[1]);
    assert(text[5] == hex_byte(b)[0] && text[6] == hex_byte(b)[1]);
    assert forall|i: int| 1 <= i < 7 implies is_small_hex(#[trigger] text[i]) by {
        assert(i == 1 || i == 2 || i == 3 || i == 4 || i == 5 || i == 6);
    }
}

proof fn lemma_hex_byte(v: u8)
    ensures
        hex_byte(v).len() == 2,
        is_small_hex(hex_byte(v)[0]),
        is_small_hex(hex_byte(v)[1]),
{
    assert((v / 16) < 16 && (v % 16) < 16);
}

} // verus!
