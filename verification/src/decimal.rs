//! Numbers as texts: the shortest decimal that reads back as a number, and decimals
//! with a fixed number of places.
use crate::bignum::{lemma_power_add, lemma_power_monotone, lemma_power_positive, power};
use crate::double::{
    denotes, exponent, lemma_denotes_unique, mantissa, parse_double, units, Double, BINADE,
    INFINITE, SIGN,
};
use crate::text::{
    chars_of, decimal_text, digit_char, number_text, push_all, push_str, text_of,
};
use vstd::arithmetic::div_mod::lemma_fundamental_div_mod_converse;
use vstd::prelude::*;

verus! {

/// The number that digits write, the most significant first.
pub open spec fn number(ds: Seq<u8>) -> nat
    decreases ds.len(),
{
    if ds.len() == 0 {
        0
    } else {
        10 * number(ds.drop_last()) + ds.last() as nat
    }
}

pub open spec fn are_digits(ds: Seq<u8>) -> bool {
    forall|i: int| 0 <= i < ds.len() ==> #[trigger] ds[i] < 10
}

/// Digits that write a number above zero without leading zeros.
pub open spec fn is_plain(ds: Seq<u8>) -> bool {
    are_digits(ds) && ds.len() > 0 && ds[0] > 0
}

pub open spec fn characters(ds: Seq<u8>) -> Seq<char> {
    ds.map_values(|d: u8| digit_char(d as nat))
}

proof fn lemma_above_zero(ds: Seq<u8>)
    requires
        is_plain(ds),
    ensures
        number(ds) > 0,
    decreases ds.len(),
{
    if ds.len() > 1 {
        assert(ds.drop_last()[0] == ds[0]);
        assert(is_plain(ds.drop_last()));
        lemma_above_zero(ds.drop_last());
    }
}

proof fn lemma_plain_text(ds: Seq<u8>)
    requires
        is_plain(ds),
    ensures
        decimal_text(number(ds)) == characters(ds),
    decreases ds.len(),
{
    let rest = ds.drop_last();
    let n = number(ds);
    if ds.len() == 1 {
        assert(number(rest) == 0);
        assert(characters(ds) =~= seq![digit_char(n)]);
    } else {
        assert(rest[0] == ds[0]);
        assert(is_plain(rest));
        lemma_above_zero(rest);
        lemma_plain_text(rest);
        assert(ds.last() < 10);
        lemma_fundamental_div_mod_converse(n as int, 10, number(rest) as int, ds.last() as int);
        assert(characters(ds) =~= characters(rest).push(digit_char(ds.last() as nat)));
    }
}

/// Digits are a head with its place value, and a tail below it.
proof fn lemma_split(ds: Seq<u8>, n: int)
    requires
        0 <= n <= ds.len(),
        are_digits(ds),
    ensures
        number(ds) == number(ds.take(n)) * power(10, (ds.len() - n) as nat) + number(ds.skip(n)),
        number(ds.skip(n)) < power(10, (ds.len() - n) as nat),
    decreases ds.len() - n,
{
    if n == ds.len() {
        assert(ds.take(n) =~= ds);
        assert(number(ds.skip(n)) == 0);
        let p = power(10, (ds.len() - n) as nat);
        assert(p == 1);
        assert(number(ds) * p == number(ds)) by (nonlinear_arith)
            requires
                p == 1,
        ;
    } else {
        let rest = ds.drop_last();
        assert forall|i: int| 0 <= i < rest.len() implies #[trigger] rest[i] < 10 by {
            assert(ds[i] < 10);
        }
        lemma_split(rest, n);
        assert(rest.take(n) =~= ds.take(n));
        assert(ds.skip(n).drop_last() =~= rest.skip(n));
        assert(ds.skip(n).last() == ds.last());
        let p = power(10, (rest.len() - n) as nat);
        let h = number(ds.take(n));
        assert(power(10, (ds.len() - n) as nat) == 10 * p);
        assert(10 * (h * p) == h * (10 * p)) by (nonlinear_arith);
        assert(number(rest) == h * p + number(rest.skip(n)));
        assert(ds.last() < 10);
    }
}

/// The quotient and the remainder by a power of ten are a head and a tail.
proof fn lemma_cut(ds: Seq<u8>, n: int)
    requires
        0 <= n <= ds.len(),
        are_digits(ds),
    ensures
        number(ds) / power(10, (ds.len() - n) as nat) == number(ds.take(n)),
        number(ds) % power(10, (ds.len() - n) as nat) == number(ds.skip(n)),
        power(10, (ds.len() - n) as nat) > 0,
{
    lemma_split(ds, n);
    let p = power(10, (ds.len() - n) as nat);
    let h = number(ds.take(n));
    assert(p * h == h * p) by (nonlinear_arith);
    lemma_fundamental_div_mod_converse(
        number(ds) as int,
        p as int,
        h as int,
        number(ds.skip(n)) as int,
    );
}

/// A number below two to the power 64 has at most 20 digits.
proof fn lemma_few_digits(ds: Seq<u8>)
    requires
        is_plain(ds),
        number(ds) <= u64::MAX,
    ensures
        ds.len() <= 20,
{
    if ds.len() > 20 {
        lemma_split(ds, 1);
        let p = power(10, (ds.len() - 1) as nat);
        let d = ds[0] as nat;
        assert(ds.take(1).drop_last() =~= Seq::<u8>::empty());
        assert(number(Seq::<u8>::empty()) == 0);
        assert(number(ds.take(1)) == d);
        assert(d * p >= p) by (nonlinear_arith)
            requires
                d >= 1,
        ;
        lemma_power_monotone(10, 20, (ds.len() - 1) as nat);
        assert(power(10, 20) == 100_000_000_000_000_000_000) by {
            reveal_with_fuel(power, 21);
        }
    }
}

fn digits_of(n: u64) -> (r: Vec<u8>)
    requires
        n > 0,
    ensures
        number(r@) == n,
        is_plain(r@),
    decreases n,
{
    let last: u8 = (n % 10) as u8;
    if n < 10 {
        let r = vec![last];
        assert(r@.drop_last() =~= Seq::<u8>::empty());
        assert(number(r@.drop_last()) == 0);
        r
    } else {
        let mut r = digits_of(n / 10);
        let ghost before = r@;
        r.push(last);
        assert(r@.drop_last() =~= before);
        assert(r@[0] == before[0]);
        r
    }
}

/// The first `n` digits times `k`, and a carry.
fn times_digit(ds: &Vec<u8>, n: usize, k: u8, carry: u8) -> (r: Vec<u8>)
    requires
        n <= ds.len(),
        are_digits(ds@),
        0 < k < 10,
        carry < k,
    ensures
        number(r@) == number(ds@.take(n as int)) * k + carry,
        are_digits(r@),
        n > 0 && ds@[0] > 0 ==> r@.len() > 0 && r@[0] > 0,
        n == 0 && carry == 0 ==> r@.len() == 0,
        n == 0 && carry > 0 ==> r@ == seq![carry],
        r@.len() <= n + 1,
    decreases n,
{
    if n == 0 {
        let mut r: Vec<u8> = Vec::new();
        assert(number(ds@.take(0)) == 0);
        if carry > 0 {
            r.push(carry);
            assert(r@.drop_last() =~= Seq::<u8>::empty());
            assert(number(r@.drop_last()) == 0);
        }
        return r;
    }
    let d: u8 = ds[n - 1];
    assert(d < 10);
    assert(d * k <= 81) by (nonlinear_arith)
        requires
            d <= 9,
            k <= 9,
    ;
    let v: u8 = d * k + carry;
    assert(v < 10 * k) by (nonlinear_arith)
        requires
            v == d * k + carry,
            d <= 9,
            carry < k,
    ;
    let mut r = times_digit(ds, n - 1, k, v / 10);
    let ghost before = r@;
    r.push(v % 10);
    proof {
        let head = ds@.take(n - 1);
        assert(ds@.take(n as int).drop_last() =~= head);
        assert(ds@.take(n as int).last() == d);
        assert(r@.drop_last() =~= before);
        let h = number(head);
        let q = (v / 10) as nat;
        assert(10 * (h * k + q) + v % 10 == 10 * h * k + v) by (nonlinear_arith)
            requires
                v == 10 * q + v % 10,
        ;
        assert((10 * h + d) * k + carry == 10 * h * k + v) by (nonlinear_arith)
            requires
                v == d * k + carry,
        ;
        if ds@[0] > 0 {
            if n == 1 {
                assert(v > 0) by (nonlinear_arith)
                    requires
                        v == d * k + carry,
                        d > 0,
                        k > 0,
                ;
                if v < 10 {
                    assert(r@ =~= seq![v]);
                } else {
                    assert(r@[0] == before[0]);
                }
            } else {
                assert(r@[0] == before[0]);
            }
        }
    }
    r
}

/// The number, times `k` so many times.
fn times_often(n: u64, k: u8, times: u64) -> (r: Vec<u8>)
    requires
        n > 0,
        1 < k < 10,
    ensures
        number(r@) == n * power(k as nat, times as nat),
        is_plain(r@),
        r@.len() <= 20 + times,
{
    let mut ds = digits_of(n);
    let mut i: u64 = 0;
    proof {
        lemma_few_digits(ds@);
    }
    assert(power(k as nat, 0) == 1);
    while i < times
        invariant
            i <= times,
            1 < k < 10,
            is_plain(ds@),
            number(ds@) == n * power(k as nat, i as nat),
            ds@.len() <= 20 + i,
        decreases times - i,
    {
        let size: usize = ds.len();
        assert(ds@.take(size as int) =~= ds@);
        ds = times_digit(&ds, size, k, 0);
        proof {
            let p = power(k as nat, i as nat);
            assert(power(k as nat, (i + 1) as nat) == k * p);
            assert(n * p * k == n * (k * p)) by (nonlinear_arith);
        }
        i += 1;
    }
    ds
}

/// What follows a number of digits: one more.
fn plus_one(ds: Vec<u8>) -> (r: Vec<u8>)
    requires
        is_plain(ds@),
    ensures
        number(r@) == number(ds@) + 1,
        is_plain(r@),
        r@.len() <= ds@.len() + 1,
    decreases ds.len(),
{
    let mut ds = ds;
    let ghost start = ds@;
    let size: usize = ds.len();
    let last: u8 = ds[size - 1];
    ds.pop();
    assert(ds@ =~= start.drop_last());
    if last < 9 {
        ds.push(last + 1);
        assert(ds@.drop_last() =~= start.drop_last());
        assert(size > 1 ==> ds@[0] == start[0]);
        ds
    } else if size == 1 {
        ds.push(1);
        ds.push(0);
        assert(ds@ =~= seq![1u8, 0u8]);
        assert(ds@.drop_last() =~= seq![1u8]);
        assert(seq![1u8].drop_last() =~= Seq::<u8>::empty());
        assert(number(start.drop_last()) == 0);
        reveal_with_fuel(number, 3);
        ds
    } else {
        assert(ds@[0] == start[0]);
        let mut r = plus_one(ds);
        let ghost before = r@;
        r.push(0);
        assert(r@.drop_last() =~= before);
        assert(r@[0] == before[0]);
        r
    }
}

/// The magnitude of a number is [`numerator`] over ten to the power [`places`].
pub open spec fn numerator(x: Double) -> nat {
    let c = x.magnitude();
    if exponent(c) >= 0 {
        mantissa(c) * power(2, exponent(c) as nat)
    } else {
        mantissa(c) * power(5, (-exponent(c)) as nat)
    }
}

pub open spec fn places(x: Double) -> nat {
    let c = x.magnitude();
    if exponent(c) >= 0 {
        0
    } else {
        (-exponent(c)) as nat
    }
}

proof fn lemma_power_ten(k: nat)
    ensures
        power(10, k) == power(2, k) * power(5, k),
    decreases k,
{
    if k > 0 {
        lemma_power_ten((k - 1) as nat);
        let a = power(2, (k - 1) as nat);
        let b = power(5, (k - 1) as nat);
        assert(10 * (a * b) == (2 * a) * (5 * b)) by (nonlinear_arith);
        assert(power(10, k) == 10 * power(10, (k - 1) as nat));
        assert(power(2, k) == 2 * a);
        assert(power(5, k) == 5 * b);
    } else {
        assert(power(10, k) == 1 && power(2, k) == 1 && power(5, k) == 1);
    }
}

/// The decimal that a number is shown by is exact before it is shortened: it is as many
/// units of the least positive number as the number itself.
pub proof fn law_exact_decimal(x: Double)
    requires
        x.wf(),
    ensures
        numerator(x) * power(2, 1074) == units(x.magnitude()) * power(10, places(x)),
{
    let c = x.magnitude();
    let m = mantissa(c);
    let u = power(2, 1074);
    if exponent(c) >= 0 {
        let e = exponent(c) as nat;
        lemma_power_add(2, e, 1074);
        let p = power(2, e);
        assert(power(10, 0) == 1);
        assert((m * p) * u == (m * (p * u)) * 1) by (nonlinear_arith);
    } else {
        let k = (-exponent(c)) as nat;
        lemma_power_ten(k);
        lemma_power_add(2, (1074 - k) as nat, k);
        let a = power(2, (1074 - k) as nat);
        let b = power(2, k);
        let f = power(5, k);
        assert((m * f) * (a * b) == (m * a) * (b * f)) by (nonlinear_arith);
    }
}

/// The digits of the exact value, and how many of them stand behind the point.
fn exact_digits(c: u64) -> (r: (Vec<u8>, u64))
    requires
        0 < c < INFINITE,
    ensures
        is_plain(r.0@),
        number(r.0@) == numerator(Double { bits: c }),
        r.1 == places(Double { bits: c }),
        r.1 <= 1074,
        r.0@.len() <= 1094,
{
    let ghost x = (Double { bits: c });
    assert(x.magnitude() == c);
    if c < BINADE {
        return (times_often(c, 5, 1074), 1074);
    }
    let m: u64 = BINADE + c % BINADE;
    let e: u64 = c / BINADE;
    assert(mantissa(c as nat) == m);
    assert(exponent(c as nat) == e - 1075);
    if e >= 1075 {
        (times_often(m, 2, e - 1075), 0)
    } else {
        (times_often(m, 5, 1075 - e), 1075 - e)
    }
}

pub open spec fn zeros(n: nat) -> Seq<char> {
    Seq::new(n, |i: int| '0')
}

/// A number with the digits `t`, of which the last has the place value ten to the
/// power `e`, without an exponent.
pub open spec fn positional(t: Seq<char>, e: int) -> Seq<char> {
    if e >= 0 {
        t + zeros(e as nat)
    } else if t.len() > -e {
        t.take(t.len() + e) + "."@ + t.skip(t.len() + e)
    } else {
        "0."@ + zeros((-e - t.len()) as nat) + t
    }
}

fn push_zeros(out: &mut Vec<char>, n: usize)
    ensures
        final(out)@ == old(out)@ + zeros(n as nat),
{
    let ghost start = out@;
    let mut i: usize = 0;
    assert(out@ =~= start + zeros(0));
    while i < n
        invariant
            i <= n,
            out@ == start + zeros(i as nat),
        decreases n - i,
    {
        out.push('0');
        i += 1;
        assert(out@ =~= start + zeros(i as nat));
    }
}

fn push_digits(out: &mut Vec<char>, ds: &Vec<u8>, from: usize, to: usize)
    requires
        from <= to <= ds.len(),
        are_digits(ds@),
    ensures
        final(out)@ == old(out)@ + characters(ds@).subrange(from as int, to as int),
{
    let ghost start = out@;
    let ghost all = characters(ds@);
    let mut i: usize = from;
    assert(out@ =~= start + all.subrange(from as int, from as int));
    while i < to
        invariant
            from <= i <= to <= ds.len(),
            are_digits(ds@),
            all == characters(ds@),
            out@ == start + all.subrange(from as int, i as int),
        decreases to - i,
    {
        let d: u8 = ds[i];
        assert(d < 10);
        out.push((48u8 + d) as char);
        i += 1;
        assert(all[i - 1] == digit_char(d as nat));
        assert(out@ =~= start + all.subrange(from as int, i as int));
    }
}

/// Writes digits at their place; the last has the place value ten to the power
/// `up`, or to the power `-down`.
fn write_positional(ds: &Vec<u8>, up: usize, down: usize) -> (r: Vec<char>)
    requires
        are_digits(ds@),
        up == 0 || down == 0,
    ensures
        r@ == positional(characters(ds@), up - down),
{
    let mut out: Vec<char> = Vec::new();
    let n: usize = ds.len();
    let ghost t = characters(ds@);
    assert(out@ =~= Seq::<char>::empty());
    if down == 0 {
        push_digits(&mut out, ds, 0, n);
        push_zeros(&mut out, up);
        assert(t.subrange(0, n as int) =~= t);
        assert(out@ =~= t + zeros(up as nat));
    } else if n > down {
        push_digits(&mut out, ds, 0, n - down);
        push_str(&mut out, ".");
        push_digits(&mut out, ds, n - down, n);
        assert(t.subrange(0, n - down) =~= t.take(n - down));
        assert(t.subrange(n - down, n as int) =~= t.skip(n - down));
        assert(out@ =~= positional(t, up - down));
    } else {
        push_str(&mut out, "0.");
        push_zeros(&mut out, down - n);
        push_digits(&mut out, ds, 0, n);
        assert(t.subrange(0, n as int) =~= t);
        assert(out@ =~= positional(t, up - down));
    }
    out
}

/// `m` times ten to the power `e`, as it is written, reads back as the magnitude of
/// `x`.
pub open spec fn reads_back(x: Double, m: nat, e: int) -> bool {
    denotes(positional(decimal_text(m), e), Double { bits: x.magnitude() as u64 })
}

/// The exact value cut off behind its first `n` digits: the digits, and the exponent
/// of ten that goes with the last.
pub open spec fn cut(x: Double, n: nat) -> (nat, int) {
    let v = numerator(x);
    let k = (decimal_text(v).len() - n) as nat;
    (v / power(10, k), k - places(x))
}

/// What is cut off makes up half of the last digit or more.
pub open spec fn is_upper_half(x: Double, n: nat) -> bool {
    let v = numerator(x);
    let p = power(10, (decimal_text(v).len() - n) as nat);
    2 * (v % p) >= p
}

/// The exact value with the fewest digits, but at least `n`, that still reads back:
/// cut off, or one more in the last place; of both, the nearer.
pub open spec fn shortest(x: Double, n: nat) -> (nat, int)
    decreases decimal_text(numerator(x)).len() - n,
{
    let v = numerator(x);
    if n >= decimal_text(v).len() {
        (v, -places(x))
    } else {
        let (low, e) = cut(x, n);
        let down = reads_back(x, low, e);
        let up = reads_back(x, low + 1, e);
        if up && (!down || is_upper_half(x, n)) {
            (low + 1, e)
        } else if down {
            (low, e)
        } else {
            shortest(x, n + 1)
        }
    }
}

/// Without zeros at the end of what stands behind the point.
pub open spec fn trimmed_zeros(m: nat, e: int) -> (nat, int)
    decreases m,
{
    if e < 0 && m > 0 && m % 10 == 0 {
        trimmed_zeros(m / 10, e + 1)
    } else {
        (m, e)
    }
}

/// How a number is shown: with as many digits as it takes to tell it from every other
/// number, and without an exponent.
pub open spec fn shown(x: Double) -> Seq<char> {
    if x.is_nan() {
        "NaN"@
    } else {
        let sign = if x.negative() {
            "-"@
        } else {
            ""@
        };
        if x.is_infinite() {
            sign + "inf"@
        } else if x.magnitude() == 0 {
            sign + "0"@
        } else {
            let (m, e) = shortest(x, 1);
            let (m, e) = trimmed_zeros(m, e);
            sign + positional(decimal_text(m), e)
        }
    }
}

/// Without zeros at the end.
pub open spec fn without_zeros(m: nat, e: int) -> (nat, int)
    decreases m,
{
    if m > 0 && m % 10 == 0 {
        without_zeros(m / 10, e + 1)
    } else {
        (m, e)
    }
}

/// The digits `t` behind each other, with the point behind the first and the exponent
/// of ten that goes with it.
pub open spec fn scientific(t: Seq<char>, e: int) -> Seq<char> {
    let k = e + t.len() - 1;
    t.take(1) + (if t.len() > 1 {
        "."@ + t.skip(1)
    } else {
        ""@
    }) + "e"@ + (if k < 0 {
        "-"@ + decimal_text((-k) as nat)
    } else {
        decimal_text(k as nat)
    })
}

/// 0.0001 as a number.
pub const LEAST_POSITIONAL: u64 = 0x3f1a_36e2_eb1c_432d;

/// Ten to the power 16 as a number.
pub const ALL_POSITIONAL: u64 = 0x4341_c379_37e0_8000;

/// How a number is listed: always with a point or an exponent, and with an exponent
/// where it is very small or very large.
pub open spec fn listed(x: Double) -> Seq<char> {
    let c = x.magnitude();
    if x.is_nan() || x.is_infinite() {
        shown(x)
    } else if c != 0 && (c < LEAST_POSITIONAL || c >= ALL_POSITIONAL) {
        let sign = if x.negative() {
            "-"@
        } else {
            ""@
        };
        let (m, e) = shortest(x, 1);
        let (m, e) = without_zeros(m, e);
        sign + scientific(decimal_text(m), e)
    } else if shown(x).contains('.') {
        shown(x)
    } else {
        shown(x) + ".0"@
    }
}

/// Digits with an exponent of ten, which is split by its sign.
struct Scaled {
    digits: Vec<u8>,
    up: usize,
    down: usize,
}

impl Scaled {
    spec fn wf(self) -> bool {
        is_plain(self.digits@) && (self.up == 0 || self.down == 0)
    }

    spec fn value(self) -> (nat, int) {
        (number(self.digits@), self.up - self.down)
    }
}

fn scaled(digits: Vec<u8>, cut_off: usize, places: usize) -> (r: Scaled)
    requires
        is_plain(digits@),
    ensures
        r.wf(),
        r.value() == (number(digits@), cut_off - places),
        r.digits == digits,
        r.up <= cut_off,
        r.down <= places,
{
    if cut_off >= places {
        Scaled { digits, up: cut_off - places, down: 0 }
    } else {
        Scaled { digits, up: 0, down: places - cut_off }
    }
}

fn does_read_back(s: &Scaled, c: u64) -> (r: bool)
    requires
        s.wf(),
        c < INFINITE,
    ensures
        r == reads_back(Double { bits: c }, s.value().0, s.value().1),
{
    let ghost x = (Double { bits: c });
    assert(x.magnitude() == c);
    let t = text_of(&write_positional(&s.digits, s.up, s.down));
    proof {
        lemma_plain_text(s.digits@);
    }
    match parse_double(t.as_str()) {
        Some(y) => {
            proof {
                lemma_denotes_unique(t@, y, x);
            }
            y.bits == c
        },
        None => {
            proof {
                if denotes(t@, x) {
                    lemma_denotes_unique(t@, x, x);
                }
            }
            false
        },
    }
}

fn take_digits(ds: &Vec<u8>, n: usize) -> (r: Vec<u8>)
    requires
        n <= ds.len(),
    ensures
        r@ == ds@.take(n as int),
{
    let mut r: Vec<u8> = Vec::new();
    let mut i: usize = 0;
    while i < n
        invariant
            i <= n <= ds.len(),
            r@ == ds@.take(i as int),
        decreases n - i,
    {
        r.push(ds[i]);
        i += 1;
        assert(r@ =~= ds@.take(i as int));
    }
    r
}

/// Whether the digits from place `n` on make up half of the digit before them or
/// more.
fn upper_half(ds: &Vec<u8>, n: usize) -> (r: bool)
    requires
        n < ds.len(),
        are_digits(ds@),
    ensures
        r == (2 * number(ds@.skip(n as int)) >= power(10, (ds@.len() - n) as nat)),
{
    proof {
        let tail = ds@.skip(n as int);
        assert(are_digits(tail)) by {
            assert forall|i: int| 0 <= i < tail.len() implies #[trigger] tail[i] < 10 by {
                assert(tail[i] == ds@[n + i]);
            }
        }
        lemma_split(tail, 1);
        let p = power(10, (tail.len() - 1) as nat);
        let d = tail[0] as nat;
        assert(tail.take(1).drop_last() =~= Seq::<u8>::empty());
        assert(number(Seq::<u8>::empty()) == 0);
        assert(number(tail.take(1)) == d);
        assert(power(10, tail.len()) == 10 * p);
        let t = number(tail);
        let r = number(tail.skip(1));
        if d >= 5 {
            assert(2 * t >= 10 * p) by (nonlinear_arith)
                requires
                    t == d * p + r,
                    d >= 5,
            ;
        } else {
            assert(2 * t < 10 * p) by (nonlinear_arith)
                requires
                    t == d * p + r,
                    d <= 4,
                    r < p,
            ;
        }
    }
    ds[n] >= 5
}

fn find_shortest(c: u64) -> (r: Scaled)
    requires
        0 < c < INFINITE,
    ensures
        r.wf(),
        r.value() == shortest(Double { bits: c }, 1),
        r.up + r.digits@.len() <= 2200,
        r.down <= 1074,
{
    let ghost x = (Double { bits: c });
    assert(x.magnitude() == c);
    let (ds, places) = exact_digits(c);
    let ghost v = number(ds@);
    proof {
        lemma_plain_text(ds@);
        assert(decimal_text(v).len() == ds@.len());
    }
    let mut n: usize = 1;
    while n < ds.len()
        invariant
            1 <= n <= ds.len(),
            c < INFINITE,
            x == (Double { bits: c }),
            x.magnitude() == c,
            is_plain(ds@),
            v == number(ds@) == numerator(x),
            places == crate::decimal::places(x),
            places <= 1074,
            ds@.len() <= 1094,
            decimal_text(v).len() == ds@.len(),
            shortest(x, 1) == shortest(x, n as nat),
        decreases ds.len() - n,
    {
        let head = take_digits(&ds, n);
        let k: usize = ds.len() - n;
        proof {
            lemma_cut(ds@, n as int);
            assert(head@[0] == ds@[0]);
            assert forall|i: int| 0 <= i < head@.len() implies #[trigger] head@[i] < 10 by {
                assert(ds@[i] < 10);
            }
        }
        let more = plus_one(take_digits(&ds, n));
        let low = scaled(head, k, places as usize);
        let high = scaled(more, k, places as usize);
        assert(low.value() == cut(x, n as nat));
        let down = does_read_back(&low, c);
        let up = does_read_back(&high, c);
        if up && (!down || upper_half(&ds, n)) {
            return high;
        }
        if down {
            return low;
        }
        n += 1;
    }
    scaled(ds, 0, places as usize)
}

fn trim(s: Scaled) -> (r: Scaled)
    requires
        s.wf(),
    ensures
        r.wf(),
        r.value() == trimmed_zeros(s.value().0, s.value().1),
    decreases s.digits.len(),
{
    let mut s = s;
    let ghost start = s.digits@;
    let n: usize = s.digits.len();
    proof {
        lemma_above_zero(start);
        assert(start.last() < 10);
        lemma_fundamental_div_mod_converse(
            number(start) as int,
            10,
            number(start.drop_last()) as int,
            start.last() as int,
        );
    }
    if s.down == 0 || s.digits[n - 1] != 0 {
        return s;
    }
    let mut ds = s.digits;
    ds.pop();
    assert(ds@ =~= start.drop_last());
    assert(n > 1);
    assert(ds@[0] == start[0]);
    trim(Scaled { digits: ds, up: s.up, down: s.down - 1 })
}

fn strip_zeros(s: Scaled) -> (r: (Vec<u8>, i64))
    requires
        s.wf(),
        s.up + s.digits@.len() <= 2200,
        s.down <= 1074,
    ensures
        is_plain(r.0@),
        r.0@.len() <= 2200,
        -1074 <= r.1 <= 2200,
        (number(r.0@), r.1 as int) == without_zeros(s.value().0, s.value().1),
        r.1 + r.0@.len() == s.value().1 + s.digits@.len(),
{
    let mut e: i64 = s.up as i64 - s.down as i64;
    let mut ds = s.digits;
    let ghost n = ds@.len();
    let ghost goal = without_zeros(s.value().0, s.value().1);
    let ghost top = e + n;
    loop
        invariant
            is_plain(ds@),
            e + ds@.len() == top,
            ds@.len() <= n,
            n <= 2200,
            top <= 2200,
            -1074 <= e,
            goal == without_zeros(number(ds@), e as int),
        ensures
            is_plain(ds@),
            e + ds@.len() == top,
            ds@.len() <= n,
            -1074 <= e,
            goal == (number(ds@), e as int),
        decreases ds.len(),
    {
        let ghost before = ds@;
        proof {
            lemma_above_zero(before);
            assert(before.last() < 10);
            lemma_fundamental_div_mod_converse(
                number(before) as int,
                10,
                number(before.drop_last()) as int,
                before.last() as int,
            );
        }
        if ds[ds.len() - 1] != 0 {
            break;
        }
        ds.pop();
        e = e + 1;
        assert(ds@ =~= before.drop_last());
        assert(ds@.len() > 0);
        assert(ds@[0] == before[0]);
    }
    (ds, e)
}

fn list_scientific(ds: &Vec<u8>, e: i64) -> (r: Vec<char>)
    requires
        is_plain(ds@),
        ds@.len() <= 2200,
        -1074 <= e <= 2200,
    ensures
        r@ == scientific(characters(ds@), e as int),
{
    let ghost t = characters(ds@);
    let n: usize = ds.len();
    let mut out: Vec<char> = Vec::new();
    push_digits(&mut out, ds, 0, 1);
    proof {
        reveal_strlit("");
        assert(""@ =~= Seq::<char>::empty());
        assert(t.subrange(0, 1) =~= t.take(1));
        assert(out@ =~= t.take(1));
    }
    if n > 1 {
        push_str(&mut out, ".");
        push_digits(&mut out, ds, 1, n);
        assert(t.subrange(1, n as int) =~= t.skip(1));
        assert(out@ =~= t.take(1) + ("."@ + t.skip(1)));
    } else {
        assert(out@ =~= t.take(1) + ""@);
    }
    push_str(&mut out, "e");
    let ghost so_far = out@;
    let k: i64 = e + (n - 1) as i64;
    if k < 0 {
        push_str(&mut out, "-");
        push_all(&mut out, &number_text((-k) as u64));
        assert(out@ =~= so_far + ("-"@ + decimal_text((-k) as nat)));
    } else {
        push_all(&mut out, &number_text(k as u64));
    }
    out
}

fn holds_point(v: &Vec<char>) -> (r: bool)
    ensures
        r == v@.contains('.'),
{
    let mut i: usize = 0;
    while i < v.len()
        invariant
            i <= v.len(),
            forall|j: int| 0 <= j < i ==> v@[j] != '.',
        decreases v.len() - i,
    {
        if v[i] == '.' {
            assert(v@[i as int] == '.');
            return true;
        }
        i += 1;
    }
    false
}

/// Lists a number.
pub fn list_number(x: Double) -> (r: String)
    ensures
        r@ == listed(x),
{
    let c: u64 = if x.bits >= SIGN {
        x.bits - SIGN
    } else {
        x.bits
    };
    assert(c == x.magnitude());
    if c >= INFINITE {
        return show_number(x);
    }
    if c != 0 && (c < LEAST_POSITIONAL || c >= ALL_POSITIONAL) {
        let mut out: Vec<char> = Vec::new();
        if x.bits >= SIGN {
            push_str(&mut out, "-");
        }
        proof {
            reveal_strlit("");
            assert(""@ =~= Seq::<char>::empty());
        }
        assert(out@ =~= if x.negative() {
            "-"@
        } else {
            ""@
        });
        let (ds, e) = strip_zeros(find_shortest(c));
        proof {
            lemma_plain_text(ds@);
            lemma_same_magnitude(x, c);
        }
        push_all(&mut out, &list_scientific(&ds, e));
        return text_of(&out);
    }
    let t = show_number(x);
    let mut v = chars_of(t.as_str());
    if holds_point(&v) {
        return t;
    }
    push_str(&mut v, ".0");
    text_of(&v)
}

/// Shows a number.
pub fn show_number(x: Double) -> (r: String)
    ensures
        r@ == shown(x),
{
    let mut out: Vec<char> = Vec::new();
    assert(out@ =~= Seq::<char>::empty());
    let c: u64 = if x.bits >= SIGN {
        x.bits - SIGN
    } else {
        x.bits
    };
    assert(c == x.magnitude());
    if c > INFINITE {
        push_str(&mut out, "NaN");
        assert(out@ =~= shown(x));
        return text_of(&out);
    }
    if x.bits >= SIGN {
        push_str(&mut out, "-");
    }
    proof {
        reveal_strlit("");
        assert(""@ =~= Seq::<char>::empty());
    }
    let ghost sign = out@;
    assert(sign =~= if x.negative() {
        "-"@
    } else {
        ""@
    });
    if c == INFINITE {
        push_str(&mut out, "inf");
    } else if c == 0 {
        push_str(&mut out, "0");
    } else {
        let s = trim(find_shortest(c));
        push_all(&mut out, &write_positional(&s.digits, s.up, s.down));
        proof {
            lemma_plain_text(s.digits@);
            lemma_same_magnitude(x, c);
        }
    }
    text_of(&out)
}

/// The magnitude of a number in units of ten to the power `-p`, to the nearest whole
/// number; a half goes to the even one.
pub open spec fn in_places(x: Double, p: nat) -> nat {
    let v = numerator(x);
    let s = places(x);
    if s <= p {
        v * power(10, (p - s) as nat)
    } else {
        let d = power(10, (s - p) as nat);
        let q = v / d;
        let r = v % d;
        if 2 * r > d || (2 * r == d && q % 2 == 1) {
            q + 1
        } else {
            q
        }
    }
}

/// A number with `p` digits behind the point.
pub open spec fn fixed(x: Double, p: nat) -> Seq<char> {
    if x.is_nan() {
        "NaN"@
    } else {
        let sign = if x.negative() {
            "-"@
        } else {
            ""@
        };
        if x.is_infinite() {
            sign + "inf"@
        } else {
            sign + positional(decimal_text(in_places(x, p)), -p)
        }
    }
}

/// How the digits from place `n` on stand to half of the digit before them.
enum Tail {
    Below,
    Half,
    Above,
}

fn tail_of(ds: &Vec<u8>, n: usize) -> (r: Tail)
    requires
        n < ds.len(),
        are_digits(ds@),
    ensures
        ({
            let t = 2 * number(ds@.skip(n as int));
            let d = power(10, (ds@.len() - n) as nat);
            match r {
                Tail::Below => t < d,
                Tail::Half => t == d,
                Tail::Above => t > d,
            }
        }),
{
    if !upper_half(ds, n) {
        return Tail::Below;
    }
    let ghost tail = ds@.skip(n as int);
    let ghost p = power(10, (tail.len() - 1) as nat);
    proof {
        assert forall|i: int| 0 <= i < tail.len() implies #[trigger] tail[i] < 10 by {
            assert(tail[i] == ds@[n + i]);
        }
        lemma_split(tail, 1);
        assert(tail.take(1).drop_last() =~= Seq::<u8>::empty());
        assert(number(Seq::<u8>::empty()) == 0);
        assert(number(tail.take(1)) == tail[0]);
        assert(power(10, tail.len()) == 10 * p);
        assert(tail.skip(1) =~= ds@.skip(n + 1));
        lemma_power_positive(10, (tail.len() - 1) as nat);
    }
    let ghost t = number(tail);
    let ghost d = tail[0] as nat;
    let ghost r = number(tail.skip(1));
    if ds[n] > 5 {
        assert(2 * t > 10 * p) by (nonlinear_arith)
            requires
                t == d * p + r,
                d >= 6,
                p > 0,
        ;
        return Tail::Above;
    }
    proof {
        if d < 5 {
            assert(2 * t < 10 * p) by (nonlinear_arith)
                requires
                    t == d * p + r,
                    d <= 4,
                    r < p,
            ;
        }
        assert(d == 5);
        assert(2 * t == 10 * p + 2 * r) by (nonlinear_arith)
            requires
                t == d * p + r,
                d == 5,
        ;
    }
    if are_zeros(ds, n + 1) {
        Tail::Half
    } else {
        Tail::Above
    }
}

fn are_zeros(ds: &Vec<u8>, from: usize) -> (r: bool)
    requires
        from <= ds.len(),
        are_digits(ds@),
    ensures
        r == (number(ds@.skip(from as int)) == 0),
{
    let mut i: usize = ds.len();
    let ghost tail = ds@.skip(from as int);
    assert(number(tail.take(tail.len() as int)) == number(tail)) by {
        assert(tail.take(tail.len() as int) =~= tail);
    }
    while i > from
        invariant
            from <= i <= ds.len(),
            are_digits(ds@),
            tail == ds@.skip(from as int),
            (number(tail) == 0) == (number(tail.take(i - from)) == 0),
        decreases i,
    {
        let ghost now = tail.take(i - from);
        assert(now.drop_last() =~= tail.take(i - from - 1));
        assert(now.last() == ds@[i - 1]);
        if ds[i - 1] != 0 {
            return false;
        }
        i -= 1;
    }
    true
}

/// The digits of a rounded number; none for zero.
fn round_places(c: u64, p: usize) -> (r: Option<Vec<u8>>)
    requires
        0 < c < INFINITE,
    ensures
        match r {
            Some(ds) => is_plain(ds@) && number(ds@) == in_places(Double { bits: c }, p as nat),
            None => in_places(Double { bits: c }, p as nat) == 0,
        },
{
    let ghost x = (Double { bits: c });
    assert(x.magnitude() == c);
    let (ds, s) = exact_digits(c);
    let s: usize = s as usize;
    if s <= p {
        let mut ds = ds;
        let ghost v = number(ds@);
        let mut i: usize = 0;
        assert(power(10, 0) == 1);
        while i < p - s
            invariant
                i <= p - s,
                s <= p,
                is_plain(ds@),
                number(ds@) == v * power(10, i as nat),
            decreases p - s - i,
        {
            let ghost before = ds@;
            ds.push(0);
            assert(ds@.drop_last() =~= before);
            assert(ds@[0] == before[0]);
            proof {
                let q = power(10, i as nat);
                assert(power(10, (i + 1) as nat) == 10 * q);
                assert(10 * (v * q) == v * (10 * q)) by (nonlinear_arith);
            }
            i += 1;
        }
        return Some(ds);
    }
    let k: usize = s - p;
    let n: usize = ds.len();
    if n < k {
        proof {
            lemma_far_below(ds@, k as nat);
        }
        return None;
    }
    proof {
        lemma_cut(ds@, n - k);
    }
    let head = take_digits(&ds, n - k);
    let tail = tail_of(&ds, n - k);
    let odd = n > k && head[n - k - 1] % 2 == 1;
    proof {
        assert forall|i: int| 0 <= i < head@.len() implies #[trigger] head@[i] < 10 by {
            assert(ds@[i] < 10);
        }
        if n > k {
            let a = number(head@.drop_last());
            let b = head@.last() as nat;
            assert((10 * a + b) % 2 == b % 2);
            assert(head@[0] == ds@[0]);
        } else {
            assert(head@ =~= Seq::<u8>::empty());
        }
    }
    let up = match tail {
        Tail::Above => true,
        Tail::Half => odd,
        Tail::Below => false,
    };
    if n == k {
        if up {
            let one = vec![1u8];
            assert(one@.drop_last() =~= Seq::<u8>::empty());
            assert(number(Seq::<u8>::empty()) == 0);
            Some(one)
        } else {
            None
        }
    } else if up {
        Some(plus_one(head))
    } else {
        Some(head)
    }
}

/// Digits with a shorter place value than `k` make up less than half of it.
proof fn lemma_far_below(ds: Seq<u8>, k: nat)
    requires
        are_digits(ds),
        ds.len() < k,
    ensures
        number(ds) / power(10, k) == 0,
        number(ds) % power(10, k) == number(ds),
        2 * number(ds) < power(10, k),
{
    lemma_split(ds, 0);
    assert(ds.skip(0) =~= ds);
    let p = power(10, ds.len());
    let q = power(10, (k - ds.len()) as nat);
    lemma_power_add(10, ds.len(), (k - ds.len()) as nat);
    assert(q >= 10) by {
        lemma_power_positive(10, (k - ds.len() - 1) as nat);
        assert(q == 10 * power(10, (k - ds.len() - 1) as nat));
    }
    assert(p * q >= 10 * p) by (nonlinear_arith)
        requires
            q >= 10,
    ;
    lemma_fundamental_div_mod_converse(
        number(ds) as int,
        power(10, k) as int,
        0,
        number(ds) as int,
    );
}

/// Shows a number with `p` digits behind the point.
pub fn show_fixed(x: Double, p: usize) -> (r: String)
    ensures
        r@ == fixed(x, p as nat),
{
    let mut out: Vec<char> = Vec::new();
    assert(out@ =~= Seq::<char>::empty());
    let c: u64 = if x.bits >= SIGN {
        x.bits - SIGN
    } else {
        x.bits
    };
    assert(c == x.magnitude());
    if c > INFINITE {
        push_str(&mut out, "NaN");
        assert(out@ =~= fixed(x, p as nat));
        return text_of(&out);
    }
    if x.bits >= SIGN {
        push_str(&mut out, "-");
    }
    proof {
        reveal_strlit("");
        assert(""@ =~= Seq::<char>::empty());
    }
    assert(out@ =~= if x.negative() {
        "-"@
    } else {
        ""@
    });
    if c == INFINITE {
        push_str(&mut out, "inf");
        return text_of(&out);
    }
    let ghost y = (Double { bits: c });
    assert(y.magnitude() == c);
    assert(in_places(x, p as nat) == in_places(y, p as nat));
    let rounded = if c == 0 {
        proof {
            lemma_zero_in_places(x, p as nat);
        }
        None
    } else {
        round_places(c, p)
    };
    let ds = match rounded {
        Some(ds) => {
            proof {
                lemma_plain_text(ds@);
            }
            ds
        },
        None => {
            let zero = vec![0u8];
            assert(characters(zero@) =~= decimal_text(0));
            zero
        },
    };
    push_all(&mut out, &write_positional(&ds, 0, p));
    text_of(&out)
}

proof fn lemma_zero_in_places(x: Double, p: nat)
    requires
        x.magnitude() == 0,
    ensures
        in_places(x, p) == 0,
{
    assert(mantissa(0) == 0);
    assert(0 * power(5, 1074) == 0) by (nonlinear_arith);
    assert(numerator(x) == 0);
    let s = places(x);
    if s <= p {
        assert(0 * power(10, (p - s) as nat) == 0) by (nonlinear_arith);
    } else {
        let d = power(10, (s - p) as nat);
        lemma_power_positive(10, (s - p) as nat);
        lemma_fundamental_div_mod_converse(0, d as int, 0, 0);
    }
}

/// The digits of a number do not depend on its sign.
proof fn lemma_same_magnitude(x: Double, c: u64)
    requires
        x.magnitude() == c,
        c < INFINITE,
    ensures
        shortest(x, 1) == shortest(Double { bits: c }, 1),
{
    lemma_same_shortest(x, c, 1);
}

proof fn lemma_same_shortest(x: Double, c: u64, n: nat)
    requires
        x.magnitude() == c,
        c < INFINITE,
    ensures
        shortest(x, n) == shortest(Double { bits: c }, n),
    decreases decimal_text(numerator(x)).len() - n,
{
    let y = (Double { bits: c });
    assert(y.magnitude() == c);
    assert(numerator(x) == numerator(y));
    assert(places(x) == places(y));
    if n < decimal_text(numerator(x)).len() {
        lemma_same_shortest(x, c, n + 1);
    }
}

} // verus!
