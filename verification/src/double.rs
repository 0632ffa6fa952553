//! Finite IEEE 754 binary64 numbers, held as their bit patterns, and the decimal
//! texts that denote them.
use crate::bignum::{lemma_power_add, lemma_power_monotone, lemma_power_positive, power, Big, Sides};
use crate::text::chars_of;
use vstd::prelude::*;

verus! {

/// 2 to the power 52: one step of the exponent field.
pub const BINADE: u64 = 0x10_0000_0000_0000;

/// The sign bit.
pub const SIGN: u64 = 0x8000_0000_0000_0000;

/// The magnitude that stands for infinity.
pub const INFINITE: u64 = 0x7ff0_0000_0000_0000;

/// The integer mantissa of the magnitude `c`.
pub open spec fn mantissa(c: nat) -> nat {
    if c < BINADE {
        c
    } else {
        BINADE as nat + c % (BINADE as nat)
    }
}

/// The exponent of two that goes with the mantissa of `c`.
pub open spec fn exponent(c: nat) -> int {
    if c < BINADE {
        -1074
    } else {
        c / (BINADE as nat) - 1075
    }
}

pub open spec fn at_least_zero(k: int) -> nat {
    if k > 0 {
        k as nat
    } else {
        0
    }
}

/// `num / den` is nearer to the magnitude `b`, or to one above it, than to the
/// magnitudes below `b`. The middle between two goes to the even one.
pub open spec fn reaches(num: nat, den: nat, b: nat) -> bool {
    b == 0 || {
        let m = 2 * mantissa((b - 1) as nat) + 1;
        let k = exponent((b - 1) as nat) - 1;
        let l = num * power(2, at_least_zero(-k));
        let r = m * power(2, at_least_zero(k)) * den;
        l > r || (l == r && b % 2 == 0)
    }
}

/// `c` is the magnitude nearest to `num / den`.
pub open spec fn nearest(num: nat, den: nat, c: nat) -> bool {
    c < INFINITE && reaches(num, den, c) && !reaches(num, den, c + 1)
}

/// What reaches a magnitude reaches the one below it.
pub proof fn lemma_reaches_down(num: nat, den: nat, b: nat)
    requires
        den > 0,
        reaches(num, den, b + 1),
    ensures
        reaches(num, den, b),
{
    if b > 0 {
        let c = (b - 1) as nat;
        let m = 2 * mantissa(c) + 1;
        let k = exponent(c) - 1;
        let m2 = 2 * mantissa(b) + 1;
        let k2 = exponent(b) - 1;
        if k == k2 {
            assert(m2 > m);
            let p = power(2, at_least_zero(k));
            lemma_power_positive(2, at_least_zero(k));
            assert(m2 * p * den > m * p * den) by (nonlinear_arith)
                requires
                    m2 > m,
                    p > 0,
                    den > 0,
            ;
        } else {
            assert(k2 == k + 1 && m == 4 * BINADE - 1 && m2 == 2 * BINADE + 1);
            if k < 0 {
                let p = power(2, at_least_zero(-k2));
                assert(power(2, at_least_zero(-k)) == 2 * p);
                assert(power(2, at_least_zero(k)) == 1);
                assert(power(2, at_least_zero(k2)) == 1);
                assert(num * (2 * p) == 2 * (num * p)) by (nonlinear_arith);
                assert(m * 1 * den < 2 * (m2 * 1 * den)) by (nonlinear_arith)
                    requires
                        m < 2 * m2,
                        den > 0,
                ;
            } else {
                let p = power(2, at_least_zero(k));
                lemma_power_positive(2, at_least_zero(k));
                assert(power(2, at_least_zero(k2)) == 2 * p);
                assert(m * p * den < m2 * (2 * p) * den) by (nonlinear_arith)
                    requires
                        m < 2 * m2,
                        p > 0,
                        den > 0,
                ;
            }
        }
    }
}

pub proof fn lemma_reaches_all_below(num: nat, den: nat, a: nat, b: nat)
    requires
        den > 0,
        a <= b,
        reaches(num, den, b),
    ensures
        reaches(num, den, a),
    decreases b - a,
{
    if a < b {
        lemma_reaches_down(num, den, (b - 1) as nat);
        lemma_reaches_all_below(num, den, a, (b - 1) as nat);
    }
}

/// A number has one nearest magnitude.
pub proof fn lemma_nearest_unique(num: nat, den: nat, a: nat, b: nat)
    requires
        den > 0,
        nearest(num, den, a),
        nearest(num, den, b),
    ensures
        a == b,
{
    if a < b {
        lemma_reaches_all_below(num, den, a + 1, b);
    } else if b < a {
        lemma_reaches_all_below(num, den, b + 1, a);
    }
}

fn reaches_at(num: &Big, den: &Big, b: u64) -> (r: bool)
    requires
        b <= INFINITE,
    ensures
        r == reaches(num@, den@, b as nat),
{
    if b == 0 {
        return true;
    }
    let c: u64 = b - 1;
    let mant: u64 = if c < BINADE {
        c
    } else {
        BINADE + c % BINADE
    };
    let expo: i64 = if c < BINADE {
        -1074
    } else {
        (c / BINADE) as i64 - 1075
    };
    let m: u64 = 2 * mant + 1;
    let k: i64 = expo - 1;
    let high: u32 = (m / 0x1_0000_0000) as u32;
    let low: u32 = (m % 0x1_0000_0000) as u32;
    let left: Big;
    let right: Big;
    let whole = den.times_split(high, low);
    assert(whole@ == den@ * m) by {
        assert(m == high * 0x1_0000_0000 + low);
    }
    if k >= 0 {
        left = num.copy();
        right = whole.shifted(k as u32);
        proof {
            assert(num@ * power(2, 0) == num@) by (nonlinear_arith)
                requires
                    power(2, 0) == 1,
            ;
            let p = power(2, k as nat);
            assert((den@ * m) * p == m * p * den@) by (nonlinear_arith);
        }
    } else {
        left = num.shifted((-k) as u32);
        right = whole;
        proof {
            assert(den@ * m == m * 1 * den@) by (nonlinear_arith);
        }
    }
    match left.sides(&right) {
        Sides::Less => false,
        Sides::Same => b % 2 == 0,
        Sides::More => true,
    }
}

/// The magnitude nearest to `num / den`, or `INFINITE` where it is too large.
pub fn nearest_magnitude(num: &Big, den: &Big) -> (r: u64)
    requires
        den@ > 0,
    ensures
        r <= INFINITE,
        r < INFINITE ==> nearest(num@, den@, r as nat),
        r == INFINITE ==> reaches(num@, den@, INFINITE as nat),
{
    let mut lo: u64 = 0;
    let mut hi: u64 = INFINITE + 1;
    while hi - lo > 1
        invariant
            lo < hi <= INFINITE + 1,
            reaches(num@, den@, lo as nat),
            hi == INFINITE + 1 || !reaches(num@, den@, hi as nat),
        decreases hi - lo,
    {
        let mid: u64 = lo + (hi - lo) / 2;
        if reaches_at(num, den, mid) {
            lo = mid;
        } else {
            hi = mid;
        }
    }
    lo
}

/// A binary64 number, by its bits.
#[derive(Debug, Clone, Copy, PartialEq, Eq, Structural)]
pub struct Double {
    pub bits: u64,
}

impl Double {
    /// The bit pattern without its sign.
    pub open spec fn magnitude(self) -> nat {
        if self.bits >= SIGN {
            (self.bits - SIGN) as nat
        } else {
            self.bits as nat
        }
    }

    pub open spec fn negative(self) -> bool {
        self.bits >= SIGN
    }

    /// The number is finite.
    pub open spec fn wf(self) -> bool {
        self.magnitude() < INFINITE
    }

    pub open spec fn is_infinite(self) -> bool {
        self.magnitude() == INFINITE
    }

    pub open spec fn is_nan(self) -> bool {
        self.magnitude() > INFINITE
    }

    /// An integer that orders numbers as their values do. Both zeros have
    /// the key 0.
    pub open spec fn key(self) -> int {
        if self.negative() {
            -(self.magnitude() as int)
        } else {
            self.magnitude() as int
        }
    }

    /// Whether this is no number.
    pub fn is_no_number(self) -> (r: bool)
        ensures
            r == self.is_nan(),
    {
        if self.bits >= SIGN {
            self.bits - SIGN > INFINITE
        } else {
            self.bits > INFINITE
        }
    }

    /// Whether this number is at most `other`.
    pub fn at_most(self, other: Double) -> (r: bool)
        ensures
            r == (self.key() <= other.key()),
    {
        if self.bits >= SIGN {
            if other.bits >= SIGN {
                self.bits >= other.bits
            } else {
                true
            }
        } else if other.bits >= SIGN {
            self.bits == 0 && other.bits == SIGN
        } else {
            self.bits <= other.bits
        }
    }

    /// Whether the two numbers are equal as numbers.
    pub fn equals(self, other: Double) -> (r: bool)
        ensures
            r == (self.key() == other.key()),
    {
        self.at_most(other) && other.at_most(self)
    }
}

/// A decimal number as it is written: its sign, its digits without the point,
/// and the exponent of ten that goes with them.
pub struct Decimal {
    pub negative: bool,
    pub digits: nat,
    pub exponent: int,
}

pub open spec fn is_digit(c: char) -> bool {
    '0' <= c <= '9'
}

/// The length of the run of digits at the start of `s`.
pub open spec fn digit_len(s: Seq<char>) -> nat
    decreases s.len(),
{
    if s.len() > 0 && is_digit(s[0]) {
        1 + digit_len(s.skip(1))
    } else {
        0
    }
}

/// The number that a run of digits writes.
pub open spec fn digits_value(s: Seq<char>) -> nat
    decreases s.len(),
{
    if s.len() == 0 {
        0
    } else {
        10 * digits_value(s.drop_last()) + (s.last() as nat - '0' as nat) as nat
    }
}

/// An optional sign and at least one digit, and nothing else.
pub open spec fn signed_integer(s: Seq<char>) -> Option<int> {
    let signed = s.len() > 0 && (s[0] == '-' || s[0] == '+');
    let t = if signed {
        s.skip(1)
    } else {
        s
    };
    if t.len() == 0 || digit_len(t) != t.len() {
        None
    } else if signed && s[0] == '-' {
        Some(-(digits_value(t) as int))
    } else {
        Some(digits_value(t) as int)
    }
}

/// A point follows the digits at the start of `t`.
pub open spec fn has_point(t: Seq<char>) -> bool {
    digit_len(t) < t.len() && t[digit_len(t) as int] == '.'
}

/// How many digits stand behind the point.
#[verifier::opaque]
pub open spec fn fraction_len(t: Seq<char>) -> nat {
    if has_point(t) {
        digit_len(t.skip(digit_len(t) as int + 1))
    } else {
        0
    }
}

/// The digits at the start of `t`, without the point among them.
#[verifier::opaque]
pub open spec fn mantissa_digits(t: Seq<char>) -> Seq<char> {
    if has_point(t) {
        t.take(digit_len(t) as int) + t.skip(digit_len(t) as int + 1).take(fraction_len(t) as int)
    } else {
        t.take(digit_len(t) as int)
    }
}

/// What follows the digits at the start of `t` and the point among them.
#[verifier::opaque]
pub open spec fn behind_mantissa(t: Seq<char>) -> Seq<char> {
    if has_point(t) {
        t.skip(digit_len(t) as int + 1).skip(fraction_len(t) as int)
    } else {
        t.skip(digit_len(t) as int)
    }
}

/// The exponent of ten that `rest` writes behind the digits.
pub open spec fn written_exponent(rest: Seq<char>) -> Option<int> {
    if rest.len() == 0 {
        Some(0)
    } else if rest[0] == 'e' || rest[0] == 'E' {
        signed_integer(rest.skip(1))
    } else {
        None
    }
}

/// Digits with an optional point among them, and an optional exponent.
pub open spec fn unsigned_decimal(t: Seq<char>, negative: bool) -> Option<Decimal> {
    if mantissa_digits(t).len() == 0 {
        None
    } else {
        match written_exponent(behind_mantissa(t)) {
            None => None,
            Some(x) => Some(
                Decimal {
                    negative,
                    digits: digits_value(mantissa_digits(t)),
                    exponent: x - fraction_len(t),
                },
            ),
        }
    }
}

/// The decimal number that `s` writes. Names such as `inf` or `nan` write none.
pub open spec fn decimal(s: Seq<char>) -> Option<Decimal> {
    if s.len() > 0 && s[0] == '-' {
        unsigned_decimal(s.skip(1), true)
    } else if s.len() > 0 && s[0] == '+' {
        unsigned_decimal(s.skip(1), false)
    } else {
        unsigned_decimal(s, false)
    }
}

/// Numerator of a decimal's magnitude.
pub open spec fn decimal_num(d: Decimal) -> nat {
    d.digits * power(10, at_least_zero(d.exponent))
}

/// Denominator of a decimal's magnitude.
pub open spec fn decimal_den(d: Decimal) -> nat {
    power(10, at_least_zero(-d.exponent))
}

/// The decimal is so large that its nearest number is infinite.
pub open spec fn overflows(d: Decimal) -> bool {
    reaches(decimal_num(d), decimal_den(d), INFINITE as nat)
}

/// `x` is the finite number nearest to the decimal that `s` writes.
pub open spec fn denotes(s: Seq<char>, x: Double) -> bool {
    decimal(s) matches Some(d) && x.negative() == d.negative && nearest(
        decimal_num(d),
        decimal_den(d),
        x.magnitude(),
    )
}

/// `s` writes a finite number.
pub open spec fn writes_finite(s: Seq<char>) -> bool {
    decimal(s) matches Some(d) && !overflows(d)
}

/// A text denotes at most one number, and only where it writes a finite one.
pub proof fn lemma_denotes_unique(s: Seq<char>, x: Double, y: Double)
    requires
        denotes(s, x),
    ensures
        writes_finite(s),
        denotes(s, y) ==> x == y,
{
    let d = decimal(s)->0;
    lemma_power_positive(10, at_least_zero(-d.exponent));
    if overflows(d) {
        lemma_reaches_all_below(
            decimal_num(d),
            decimal_den(d),
            x.magnitude() + 1,
            INFINITE as nat,
        );
    }
    if denotes(s, y) {
        lemma_nearest_unique(decimal_num(d), decimal_den(d), x.magnitude(), y.magnitude());
    }
}

proof fn lemma_ten_above_eight(n: nat)
    ensures
        power(10, n) >= power(2, 3 * n),
    decreases n,
{
    if n > 0 {
        lemma_ten_above_eight((n - 1) as nat);
        let p = power(2, (3 * n - 3) as nat);
        assert(power(2, 3 * n) == 2 * power(2, (3 * n - 1) as nat));
        assert(power(2, (3 * n - 1) as nat) == 2 * power(2, (3 * n - 2) as nat));
        assert(power(2, (3 * n - 2) as nat) == 2 * p);
    }
}

proof fn lemma_huge_overflows(d: Decimal, n: nat)
    requires
        n > 0,
        d.digits >= power(10, (n - 1) as nat),
        n - 1 + d.exponent >= 400,
    ensures
        overflows(d),
{
    let num = decimal_num(d);
    let den = decimal_den(d);
    let h = power(10, 400);
    lemma_power_positive(10, at_least_zero(-d.exponent));
    assert(num >= den * h) by {
        if d.exponent >= 0 {
            let x = at_least_zero(d.exponent);
            lemma_power_add(10, (n - 1) as nat, x);
            lemma_power_monotone(10, 400, (n - 1 + x) as nat);
            let p = power(10, x);
            let q = power(10, (n - 1) as nat);
            assert(d.digits * p >= q * p) by (nonlinear_arith)
                requires
                    d.digits >= q,
            ;
            assert(1 * h == h);
        } else {
            let x = at_least_zero(-d.exponent);
            lemma_power_add(10, x, 400);
            lemma_power_monotone(10, (x + 400) as nat, (n - 1) as nat);
            assert(d.digits * 1 == d.digits);
        }
    }
    lemma_ten_above_eight(400);
    lemma_power_monotone(2, 1024, 1200);
    lemma_power_add(2, 54, 970);
    let p = power(2, 970);
    lemma_power_positive(2, 970);
    assert(power(2, 54) == 0x40_0000_0000_0000) by {
        lemma_power_add(2, 27, 27);
        reveal_with_fuel(power, 28);
    }
    let m = 2 * mantissa((INFINITE - 1) as nat) + 1;
    assert(m == 0x3f_ffff_ffff_ffff);
    assert(exponent((INFINITE - 1) as nat) == 971);
    assert(m * p < h) by (nonlinear_arith)
        requires
            h >= 0x40_0000_0000_0000 * p,
            m == 0x3f_ffff_ffff_ffff,
            p > 0,
    ;
    assert((m * p) * den < num) by (nonlinear_arith)
        requires
            num >= den * h,
            m * p < h,
            den > 0,
    ;
    assert(num * power(2, 0) == num) by (nonlinear_arith)
        requires
            power(2, 0) == 1,
    ;
}

proof fn lemma_tiny_is_zero(d: Decimal, n: nat)
    requires
        d.digits < power(10, n),
        n + d.exponent <= -400,
    ensures
        nearest(decimal_num(d), decimal_den(d), 0),
{
    let den = decimal_den(d);
    let x = at_least_zero(-d.exponent);
    let h = power(10, 400);
    lemma_power_add(10, n, 400);
    lemma_power_monotone(10, n + 400, x);
    lemma_ten_above_eight(400);
    lemma_power_monotone(2, 1075, 1200);
    let t = power(2, 1075);
    let q = power(10, n);
    lemma_power_positive(10, 400);
    assert(d.digits * power(10, 0) == d.digits) by (nonlinear_arith)
        requires
            power(10, 0) == 1,
    ;
    assert(d.digits * t < den) by (nonlinear_arith)
        requires
            d.digits < q,
            t <= h,
            q * h <= den,
            h > 0,
    ;
    assert(1 * power(2, 0) * den == den) by (nonlinear_arith)
        requires
            power(2, 0) == 1,
    ;
}

proof fn lemma_zero_is_zero(d: Decimal)
    requires
        d.digits == 0,
    ensures
        nearest(decimal_num(d), decimal_den(d), 0),
{
    let den = decimal_den(d);
    lemma_power_positive(10, at_least_zero(-d.exponent));
    assert(0 * power(10, at_least_zero(d.exponent)) == 0);
    assert(0 * power(2, 1075) == 0);
    assert(1 * power(2, 0) * den == den) by (nonlinear_arith)
        requires
            power(2, 0) == 1,
    ;
}

proof fn lemma_digit_len(s: Seq<char>)
    ensures
        digit_len(s) <= s.len(),
        forall|i: int| 0 <= i < digit_len(s) ==> is_digit(#[trigger] s[i]),
    decreases s.len(),
{
    if s.len() > 0 && is_digit(s[0]) {
        lemma_digit_len(s.skip(1));
        assert forall|i: int| 0 <= i < digit_len(s) implies is_digit(#[trigger] s[i]) by {
            if i > 0 {
                assert(s.skip(1)[i - 1] == s[i]);
            }
        }
    }
}

/// The position behind the run of digits at `from`.
fn digits_end(v: &Vec<char>, from: usize) -> (r: usize)
    requires
        from <= v.len(),
    ensures
        from <= r <= v.len(),
        r - from == digit_len(v@.skip(from as int)),
{
    let ghost s = v@.skip(from as int);
    assert(s.skip(0) =~= s);
    let mut i: usize = from;
    while i < v.len() && '0' <= v[i] && v[i] <= '9'
        invariant
            from <= i <= v.len(),
            s == v@.skip(from as int),
            digit_len(s) == (i - from) + digit_len(s.skip(i - from)),
        decreases v.len() - i,
    {
        assert(s.skip(i - from).skip(1) =~= s.skip(i + 1 - from));
        i += 1;
    }
    i
}

/// Where exponents no longer matter.
const FAR: i128 = 1_000_000_000_000_000_000_000_000_000_000;

/// `x` is `e`, or both are far out on the same side.
spec fn far_equal(x: int, e: int) -> bool {
    ||| x == e
    ||| x >= FAR && e >= FAR
    ||| x <= -FAR && e <= -FAR
}

fn read_signed(v: &Vec<char>, from: usize) -> (r: Option<i128>)
    requires
        from <= v.len(),
    ensures
        match r {
            None => signed_integer(v@.skip(from as int)) is None,
            Some(x) => signed_integer(v@.skip(from as int)) matches Some(e) && far_equal(
                x as int,
                e,
            ) && -10 * FAR - 10 <= x <= 10 * FAR + 10,
        },
{
    let ghost s = v@.skip(from as int);
    let signed = from < v.len() && (v[from] == '-' || v[from] == '+');
    let start: usize = if signed {
        from + 1
    } else {
        from
    };
    let ghost t = v@.skip(start as int);
    proof {
        if signed {
            assert(s.skip(1) =~= t);
        }
    }
    let end = digits_end(v, start);
    if start == v.len() || end != v.len() {
        return None;
    }
    let mut x: i128 = 0;
    let mut i: usize = start;
    assert(t.take(0) =~= Seq::<char>::empty());
    proof {
        lemma_digit_len(t);
    }
    while i < v.len()
        invariant
            start <= i <= v.len(),
            t == v@.skip(start as int),
            digit_len(t) == t.len(),
            forall|k: int| 0 <= k < t.len() ==> is_digit(#[trigger] t[k]),
            0 <= x <= 10 * FAR + 10,
            far_equal(x as int, digits_value(t.take(i - start)) as int),
            digits_value(t.take(i - start)) < FAR ==> x == digits_value(t.take(i - start)),
        decreases v.len() - i,
    {
        proof {
            let next = t.take(i + 1 - start);
            assert(next.drop_last() =~= t.take(i - start));
            assert(next.last() == t[i - start]);
            assert(t[i - start] == v@[i as int]);
        }
        if x < FAR {
            x = x * 10 + (v[i] as u32 - '0' as u32) as i128;
        }
        i += 1;
    }
    assert(t.take(t.len() as int) =~= t);
    if signed && v[from] == '-' {
        Some(-x)
    } else {
        Some(x)
    }
}

/// Where the parts of a written decimal stand.
struct Written {
    negative: bool,
    start: usize,
    point: usize,
    frac_start: usize,
    frac_end: usize,
    exponent: i128,
}

impl Written {
    spec fn digits(self, s: Seq<char>) -> Seq<char> {
        s.subrange(self.start as int, self.point as int) + s.subrange(
            self.frac_start as int,
            self.frac_end as int,
        )
    }

    /// These are the parts of `d`, written as `s`.
    spec fn writes(self, s: Seq<char>, d: Decimal) -> bool {
        &&& self.start <= self.point <= self.frac_start <= self.frac_end <= s.len()
        &&& self.frac_start <= self.point + 1
        &&& self.frac_start == self.point ==> self.frac_end == self.point
        &&& forall|j: int| self.start <= j < self.point ==> is_digit(#[trigger] s[j])
        &&& forall|j: int| self.frac_start <= j < self.frac_end ==> is_digit(#[trigger] s[j])
        &&& d.negative == self.negative
        &&& d.digits == digits_value(self.digits(s))
        &&& far_equal(self.exponent as int, d.exponent + (self.frac_end - self.frac_start))
        &&& -10 * FAR - 10 <= self.exponent <= 10 * FAR + 10
    }
}

/// Where the digits at `start` end, and where those behind the point stand.
fn read_mantissa(v: &Vec<char>, start: usize) -> (r: (usize, usize, usize))
    requires
        start <= v.len(),
    ensures
        start <= r.0 <= r.1 <= r.2 <= v.len(),
        r.1 <= r.0 + 1,
        r.1 == r.0 ==> r.2 == r.0,
        forall|j: int| start <= j < r.0 ==> is_digit(#[trigger] v@[j]),
        forall|j: int| r.1 <= j < r.2 ==> is_digit(#[trigger] v@[j]),
        mantissa_digits(v@.skip(start as int)) == v@.subrange(start as int, r.0 as int)
            + v@.subrange(r.1 as int, r.2 as int),
        fraction_len(v@.skip(start as int)) == r.2 - r.1,
        behind_mantissa(v@.skip(start as int)) == v@.skip(r.2 as int),
{
    let ghost t = v@.skip(start as int);
    let point = digits_end(v, start);
    proof {
        reveal(fraction_len);
        reveal(mantissa_digits);
        reveal(behind_mantissa);
        lemma_digit_len(t);
        assert forall|j: int| start <= j < point implies is_digit(#[trigger] v@[j]) by {
            assert(t[j - start] == v@[j]);
        }
        if point < v.len() {
            assert(t[point - start] == v@[point as int]);
        }
    }
    if point < v.len() && v[point] == '.' {
        let frac_end = digits_end(v, point + 1);
        proof {
            let u = v@.skip(point + 1);
            assert(t.skip(point + 1 - start) =~= u);
            lemma_digit_len(u);
            assert forall|j: int| point + 1 <= j < frac_end implies is_digit(#[trigger] v@[j]) by {
                assert(u[j - (point + 1)] == v@[j]);
            }
            assert(t.take(point - start) + u.take(frac_end - (point + 1)) =~= v@.subrange(
                start as int,
                point as int,
            ) + v@.subrange(point + 1, frac_end as int));
            assert(u.skip(frac_end - (point + 1)) =~= v@.skip(frac_end as int));
        }
        (point, point + 1, frac_end)
    } else {
        proof {
            assert(t.take(point - start) =~= v@.subrange(start as int, point as int) + v@.subrange(
                point as int,
                point as int,
            ));
            assert(t.skip(point - start) =~= v@.skip(point as int));
        }
        (point, point, point)
    }
}

fn read_exponent(v: &Vec<char>, from: usize) -> (r: Option<i128>)
    requires
        from <= v.len(),
    ensures
        match r {
            None => written_exponent(v@.skip(from as int)) is None,
            Some(x) => written_exponent(v@.skip(from as int)) matches Some(e) && far_equal(
                x as int,
                e,
            ) && -10 * FAR - 10 <= x <= 10 * FAR + 10,
        },
{
    if from == v.len() {
        return Some(0);
    }
    assert(v@.skip(from as int)[0] == v@[from as int]);
    if v[from] == 'e' || v[from] == 'E' {
        assert(v@.skip(from as int).skip(1) =~= v@.skip(from + 1));
        read_signed(v, from + 1)
    } else {
        None
    }
}

fn read_written(v: &Vec<char>) -> (r: Option<Written>)
    ensures
        match r {
            None => decimal(v@) is None,
            Some(w) => decimal(v@) matches Some(d) && w.writes(v@, d),
        },
{
    let negative = v.len() > 0 && v[0] == '-';
    let start: usize = if v.len() > 0 && (v[0] == '-' || v[0] == '+') {
        1
    } else {
        0
    };
    proof {
        if start == 0 {
            assert(v@.skip(0) =~= v@);
        }
        assert(decimal(v@) == unsigned_decimal(v@.skip(start as int), negative));
    }
    let (point, frac_start, frac_end) = read_mantissa(v, start);
    if point == start && frac_end == frac_start {
        return None;
    }
    match read_exponent(v, frac_end) {
        None => None,
        Some(exponent) => {
            let w = Written { negative, start, point, frac_start, frac_end, exponent };
            assert(w.digits(v@) == mantissa_digits(v@.skip(start as int)));
            Some(w)
        },
    }
}

/// `big` has `n` digits, or is zero and has none.
spec fn has_digits(big: nat, n: nat) -> bool {
    if n == 0 {
        big == 0
    } else {
        power(10, (n - 1) as nat) <= big < power(10, n)
    }
}

/// Appends the digits of `v` from `from` up to `to`.
fn read_digits(v: &Vec<char>, from: usize, to: usize, big: &Big, significant: u128) -> (r: (
    Big,
    u128,
))
    requires
        from <= to <= v.len(),
        forall|j: int| from <= j < to ==> is_digit(#[trigger] v@[j]),
        has_digits(big@, significant as nat),
        significant <= usize::MAX,
    ensures
        has_digits(r.0@, r.1 as nat),
        r.1 <= significant + (to - from),
        forall|s: Seq<char>|
            #![trigger digits_value(s + v@.subrange(from as int, to as int))]
            digits_value(s) == big@ ==> digits_value(s + v@.subrange(from as int, to as int))
                == r.0@,
{
    let mut out = big.copy();
    let mut n: u128 = significant;
    let mut k: usize = from;
    proof {
        assert forall|s: Seq<char>| digits_value(s) == big@ implies #[trigger] digits_value(
            s + v@.subrange(from as int, k as int),
        ) == out@ by {
            assert(s + v@.subrange(from as int, k as int) =~= s);
        }
    }
    while k < to
        invariant
            from <= k <= to <= v.len(),
            forall|j: int| from <= j < to ==> is_digit(#[trigger] v@[j]),
            has_digits(out@, n as nat),
            significant <= usize::MAX,
            n <= significant + (k - from),
            forall|s: Seq<char>|
                #![trigger digits_value(s + v@.subrange(from as int, k as int))]
                digits_value(s) == big@ ==> digits_value(s + v@.subrange(from as int, k as int))
                    == out@,
        decreases to - k,
    {
        let digit: u32 = v[k] as u32 - '0' as u32;
        let ghost before = out@;
        proof {
            if n > 0 {
                assert(power(10, n as nat) == 10 * power(10, (n - 1) as nat));
                assert(power(10, (n + 1) as nat) == 10 * power(10, n as nat));
            } else {
                assert(power(10, 0) == 1);
                assert(power(10, 1) == 10 * power(10, 0));
            }
        }
        out = out.scaled(10, digit);
        proof {
            assert forall|s: Seq<char>| digits_value(s) == big@ implies #[trigger] digits_value(
                s + v@.subrange(from as int, k + 1),
            ) == out@ by {
                let next = s + v@.subrange(from as int, k + 1);
                assert(next.drop_last() =~= s + v@.subrange(from as int, k as int));
                assert(next.last() == v@[k as int]);
                assert(digits_value(s + v@.subrange(from as int, k as int)) == before);
            }
        }
        if n > 0 || digit > 0 {
            n += 1;
        }
        k += 1;
    }
    (out, n)
}

/// The magnitude nearest to the decimal `d`, which has the digits `big`.
fn round_decimal(big: &Big, significant: u128, exp: i128, Ghost(d): Ghost<Decimal>) -> (r: Option<
    u64,
>)
    requires
        d.digits == big@,
        has_digits(big@, significant as nat),
        significant <= 2 * usize::MAX,
        -FAR * 20 <= exp <= FAR * 20,
        exp == d.exponent || (exp > FAR / 2 && d.exponent > FAR / 2) || (exp < -FAR / 2
            && d.exponent < -FAR / 2),
    ensures
        match r {
            None => overflows(d),
            Some(c) => c < INFINITE && nearest(decimal_num(d), decimal_den(d), c as nat),
        },
{
    if significant == 0 {
        proof {
            lemma_zero_is_zero(d);
        }
        return Some(0);
    }
    if significant as i128 - 1 + exp >= 400 {
        proof {
            lemma_huge_overflows(d, significant as nat);
        }
        return None;
    }
    if significant as i128 + exp <= -400 {
        proof {
            lemma_tiny_is_zero(d, significant as nat);
        }
        return Some(0);
    }
    assert(exp == d.exponent);
    let one = Big::zero().scaled(1, 1);
    let num: Big;
    let den: Big;
    proof {
        assert(power(10, 0) == 1);
        assert(big@ * power(10, 0) == big@) by (nonlinear_arith)
            requires
                power(10, 0) == 1,
        ;
        lemma_power_positive(10, at_least_zero(-d.exponent));
    }
    if exp >= 0 {
        num = big.times_power(10, exp as u128);
        den = one;
    } else {
        num = big.copy();
        den = one.times_power(10, (-exp) as u128);
        assert(1 * power(10, (-exp) as nat) == power(10, (-exp) as nat));
    }
    let magnitude = nearest_magnitude(&num, &den);
    if magnitude == INFINITE {
        None
    } else {
        Some(magnitude)
    }
}

/// The finite number that `text` denotes.
pub fn parse_double(text: &str) -> (r: Option<Double>)
    ensures
        match r {
            Some(x) => x.wf() && denotes(text@, x),
            None => !writes_finite(text@),
        },
{
    let v = chars_of(text);
    match read_written(&v) {
        None => None,
        Some(w) => {
            let ghost d = decimal(text@)->0;
            let empty = Big::zero();
            let (whole, m) = read_digits(&v, w.start, w.point, &empty, 0);
            let (all, n) = read_digits(&v, w.frac_start, w.frac_end, &whole, m);
            proof {
                let head = v@.subrange(w.start as int, w.point as int);
                assert(digits_value(Seq::<char>::empty()) == 0);
                assert(Seq::<char>::empty() + head =~= head);
                assert(digits_value(Seq::<char>::empty() + head) == whole@);
                assert(digits_value(
                    head + v@.subrange(w.frac_start as int, w.frac_end as int),
                ) == all@);
            }
            let exp: i128 = w.exponent - (w.frac_end - w.frac_start) as i128;
            match round_decimal(&all, n, exp, Ghost(d)) {
                None => None,
                Some(c) => if w.negative {
                    let x = Double { bits: c + SIGN };
                    proof {
                        lemma_denotes_unique(text@, x, x);
                    }
                    Some(x)
                } else {
                    let x = Double { bits: c };
                    proof {
                        lemma_denotes_unique(text@, x, x);
                    }
                    Some(x)
                },
            }
        },
    }
}

/// The magnitude `c` in units of the least positive number.
pub open spec fn units(c: nat) -> nat {
    mantissa(c) * power(2, (exponent(c) + 1074) as nat)
}

/// `y` is four times `x`, exactly.
pub open spec fn is_quadruple(x: Double, y: Double) -> bool {
    y.wf() && y.negative() == x.negative() && units(y.magnitude()) == 4 * units(x.magnitude())
}

/// Four times `x`.
pub fn quadruple(x: Double) -> (y: Double)
    requires
        x.magnitude() + 2 * BINADE < INFINITE,
    ensures
        is_quadruple(x, y),
{
    let sign: u64 = if x.bits >= SIGN {
        SIGN
    } else {
        0
    };
    let c: u64 = x.bits - sign;
    let r: u64 = if c >= BINADE {
        c + 2 * BINADE
    } else if c < BINADE / 2 {
        4 * c
    } else {
        BINADE + 2 * c
    };
    proof {
        assert(power(2, 0) == 1);
        assert(power(2, 1) == 2 * power(2, 0));
        if c >= BINADE {
            let p = power(2, (exponent(c as nat) + 1074) as nat);
            let e = (exponent(c as nat) + 1074) as nat;
            assert(power(2, (e + 2) as nat) == 2 * power(2, (e + 1) as nat));
            assert(power(2, (e + 1) as nat) == 2 * p);
            assert(exponent(r as nat) == exponent(c as nat) + 2);
            assert(mantissa(r as nat) == mantissa(c as nat));
            let m = mantissa(c as nat);
            assert(m * (4 * p) == 4 * (m * p)) by (nonlinear_arith);
        } else {
            assert(units(c as nat) == c * power(2, 0));
            assert(c * power(2, 0) == c) by (nonlinear_arith)
                requires
                    power(2, 0) == 1,
            ;
            if c < BINADE / 2 {
                assert(mantissa(r as nat) == 4 * c);
                assert(exponent(r as nat) == -1074);
                assert((4 * c) * power(2, 0) == 4 * c) by (nonlinear_arith)
                    requires
                        power(2, 0) == 1,
                ;
            } else {
                assert(mantissa(r as nat) == 2 * c);
                assert(exponent(r as nat) == -1073);
                assert((2 * c) * power(2, 1) == 4 * c) by (nonlinear_arith)
                    requires
                        power(2, 1) == 2,
                ;
            }
        }
    }
    Double { bits: r + sign }
}

/// `x` lies from `min` to `max`; there is nothing from or to a bound that is no number.
pub open spec fn is_between(x: Double, min: Double, max: Double) -> bool {
    !min.is_nan() && !max.is_nan() && min.key() <= x.key() <= max.key()
}

/// `s` denotes a number from `min` to `max`.
pub open spec fn in_bounds(s: Seq<char>, min: Double, max: Double) -> bool {
    exists|x: Double| #[trigger] denotes(s, x) && is_between(x, min, max)
}

/// The number that `raw` denotes, where it lies from `min` to `max`.
pub fn bounded_number(raw: &str, min: Double, max: Double) -> (r: Option<Double>)
    ensures
        match r {
            Some(x) => x.wf() && denotes(raw@, x) && is_between(x, min, max),
            None => !in_bounds(raw@, min, max),
        },
{
    match parse_double(raw) {
        None => {
            proof {
                if in_bounds(raw@, min, max) {
                    let x = choose|x: Double|
                        #[trigger] denotes(raw@, x) && is_between(x, min, max);
                    lemma_denotes_unique(raw@, x, x);
                }
            }
            None
        },
        Some(x) => {
            if !min.is_no_number() && !max.is_no_number() && min.at_most(x) && x.at_most(max) {
                Some(x)
            } else {
                proof {
                    if in_bounds(raw@, min, max) {
                        let y = choose|x: Double|
                            #[trigger] denotes(raw@, x) && is_between(x, min, max);
                        lemma_denotes_unique(raw@, x, y);
                    }
                }
                None
            }
        },
    }
}

} // verus!
