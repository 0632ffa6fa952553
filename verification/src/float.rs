//! Arithmetic of binary64 numbers: every operation on finite numbers gives the
//! number nearest to its exact result, and infinities, NaN and the sign of a zero
//! are carried on. There is one NaN.
use vstd::arithmetic::div_mod::lemma_fundamental_div_mod_converse;
use crate::bignum::{lemma_power_add, lemma_power_positive, power, Big, Sides};
use crate::double::{
    at_least_zero, exponent, lemma_nearest_unique, lemma_reaches_all_below, mantissa, nearest,
    nearest_magnitude, reaches, units, Double, BINADE, INFINITE, SIGN,
};
use vstd::prelude::*;

verus! {

/// The value of `x` in units of 2 to the power -1074, the least positive number.
pub open spec fn exact(x: Double) -> int {
    if x.negative() {
        -(units(x.magnitude()) as int)
    } else {
        units(x.magnitude()) as int
    }
}

/// How many units make one.
pub open spec fn one_units() -> nat {
    power(2, 1074)
}

pub open spec fn abs(n: int) -> nat {
    if n < 0 {
        (-n) as nat
    } else {
        n as nat
    }
}

/// `r` is the number nearest to `num / den`; what is too large becomes infinite.
pub open spec fn is_rounded(num: int, den: nat, r: Double) -> bool {
    &&& r.magnitude() <= INFINITE
    &&& r.magnitude() < INFINITE ==> nearest(abs(num), den, r.magnitude())
    &&& r.magnitude() == INFINITE ==> reaches(abs(num), den, INFINITE as nat)
    &&& r.negative() == (num < 0)
}

/// The number nearest to `num / den`.
pub open spec fn rounded(num: int, den: nat) -> Double {
    choose|r: Double| is_rounded(num, den, r)
}

/// A number has one nearest number.
pub proof fn lemma_rounded(num: int, den: nat, r: Double)
    requires
        den > 0,
        is_rounded(num, den, r),
    ensures
        r == rounded(num, den),
{
    let s = rounded(num, den);
    assert(is_rounded(num, den, s));
    let a = r.magnitude();
    let b = s.magnitude();
    if a < INFINITE && b < INFINITE {
        lemma_nearest_unique(abs(num), den, a, b);
    } else if a < INFINITE {
        lemma_reaches_all_below(abs(num), den, a + 1, INFINITE as nat);
    } else if b < INFINITE {
        lemma_reaches_all_below(abs(num), den, b + 1, INFINITE as nat);
    }
}

/// The bits of NaN.
pub const NOT_A_NUMBER: u64 = 0x7ff8_0000_0000_0000;

pub open spec fn nan() -> Double {
    Double { bits: NOT_A_NUMBER }
}

/// The infinity of the given sign.
pub open spec fn infinity(negative: bool) -> Double {
    if negative {
        Double { bits: (INFINITE + SIGN) as u64 }
    } else {
        Double { bits: INFINITE }
    }
}

/// The zero of the given sign.
pub open spec fn zero(negative: bool) -> Double {
    if negative {
        Double { bits: SIGN }
    } else {
        Double { bits: 0 }
    }
}

/// `a` with the sign turned round where `when` holds.
pub open spec fn negated_if(when: bool, a: Double) -> Double {
    if when {
        f_neg(a)
    } else {
        a
    }
}

pub open spec fn f_neg(a: Double) -> Double {
    if a.negative() {
        Double { bits: (a.bits - SIGN) as u64 }
    } else {
        Double { bits: (a.bits + SIGN) as u64 }
    }
}

/// The sum. One that is nothing is negative only where both sides are negative.
#[verifier::opaque]
pub open spec fn f_add(a: Double, b: Double) -> Double {
    if a.is_nan() || b.is_nan() || (a.is_infinite() && b.is_infinite() && a.negative()
        != b.negative()) {
        nan()
    } else if a.is_infinite() {
        a
    } else if b.is_infinite() {
        b
    } else if exact(a) + exact(b) == 0 {
        zero(a.negative() && b.negative())
    } else {
        rounded(exact(a) + exact(b), one_units())
    }
}

pub open spec fn f_sub(a: Double, b: Double) -> Double {
    f_add(a, f_neg(b))
}

/// The product, which is negative where one side is.
#[verifier::opaque]
pub open spec fn f_mul(a: Double, b: Double) -> Double {
    if a.is_nan() || b.is_nan() {
        nan()
    } else if a.is_infinite() || b.is_infinite() {
        if a.magnitude() == 0 || b.magnitude() == 0 {
            nan()
        } else {
            infinity(a.negative() != b.negative())
        }
    } else if exact(a) * exact(b) == 0 {
        zero(a.negative() != b.negative())
    } else {
        rounded(exact(a) * exact(b), one_units() * one_units())
    }
}

/// The quotient, for a divisor that is not zero. It is negative where one side is.
#[verifier::opaque]
pub open spec fn f_div(a: Double, b: Double) -> Double {
    if a.is_nan() || b.is_nan() || (a.is_infinite() && b.is_infinite()) {
        nan()
    } else if a.is_infinite() {
        infinity(a.negative() != b.negative())
    } else if b.is_infinite() || exact(a) == 0 {
        zero(a.negative() != b.negative())
    } else {
        rounded(
            if b.negative() {
                -exact(a)
            } else {
                exact(a)
            },
            abs(exact(b)),
        )
    }
}

/// Twice the middle between the number of the magnitude `c` and the next larger
/// one, in units.
pub open spec fn twice_middle(c: nat) -> nat {
    (2 * mantissa(c) + 1) * power(2, (exponent(c) + 1074) as nat)
}

/// The square root of `u` units is nearer to the magnitude `b` than to any below
/// it; a tie goes to the even one.
pub open spec fn root_reaches(u: nat, b: nat) -> bool {
    if b == 0 {
        true
    } else {
        let square = twice_middle((b - 1) as nat) * twice_middle((b - 1) as nat);
        4 * u * one_units() > square || (4 * u * one_units() == square && b % 2 == 0)
    }
}

/// `r` is the number nearest to the square root of `u` units.
pub open spec fn is_root(u: nat, r: Double) -> bool {
    &&& r.bits <= INFINITE
    &&& root_reaches(u, r.bits as nat)
    &&& r.bits < INFINITE ==> !root_reaches(u, (r.bits + 1) as nat)
}

/// The square root; NaN for what is below zero. Both zeros are their own roots.
#[verifier::opaque]
pub open spec fn f_sqrt(a: Double) -> Double {
    if a.is_nan() || a.key() < 0 {
        nan()
    } else if a.is_infinite() || a.magnitude() == 0 {
        a
    } else {
        choose|r: Double| is_root(units(a.magnitude()), r)
    }
}

/// 2 to the power -126, the least normal number of the shorter format.
pub const LEAST_NORMAL_SINGLE: u64 = 0x3810_0000_0000_0000;

/// Half a step above the largest finite number of the shorter format.
pub const SINGLE_LIMIT: u64 = 0x47ef_ffff_f000_0000;

/// One and a half times 2 to the power -97: adding it leaves multiples of 2 to
/// the power -149.
pub const TINY_SHIFT: u64 = 0x39e8_0000_0000_0000;

/// The magnitude nearest to `m` whose last 29 bits are zero; a tie goes to the
/// even one.
pub open spec fn short_magnitude(m: nat) -> nat {
    let q = m / 0x2000_0000;
    let r = m % 0x2000_0000;
    if r > 0x1000_0000 || (r == 0x1000_0000 && q % 2 == 1) {
        (q + 1) * 0x2000_0000
    } else {
        q * 0x2000_0000
    }
}

/// The nearest number of the binary32 format. Below its normal numbers these are
/// the multiples of 2 to the power -149.
pub open spec fn f_narrow(a: Double) -> Double {
    let m = a.magnitude();
    if a.is_nan() {
        nan()
    } else if m >= SINGLE_LIMIT {
        infinity(a.negative())
    } else if m >= LEAST_NORMAL_SINGLE {
        if a.negative() {
            Double { bits: (short_magnitude(m) + SIGN) as u64 }
        } else {
            Double { bits: short_magnitude(m) as u64 }
        }
    } else {
        let shift = (Double { bits: TINY_SHIFT });
        negated_if(a.negative(), f_sub(f_add(f_abs(a), shift), shift))
    }
}

/// The remainder of the division that truncates, for a finite divisor above zero. It
/// has the sign of the dividend.
#[verifier::opaque]
pub open spec fn f_rem(a: Double, b: Double) -> Double {
    if !a.wf() {
        nan()
    } else {
        negated_if(
            a.negative(),
            rounded((abs(exact(a)) % abs(exact(b))) as int, one_units()),
        )
    }
}

/// The remainder that is not negative, for a finite divisor above zero.
pub open spec fn f_rem_euclid(a: Double, b: Double) -> Double {
    let r = f_rem(a, b);
    if r.key() < 0 {
        f_add(r, b)
    } else {
        r
    }
}

pub open spec fn f_abs(a: Double) -> Double {
    Double { bits: a.magnitude() as u64 }
}

/// The larger of two numbers; NaN loses against any number.
pub open spec fn f_max(a: Double, b: Double) -> Double {
    if a.is_nan() {
        b
    } else if b.is_nan() {
        a
    } else if a.key() <= b.key() {
        b
    } else {
        a
    }
}

/// The smaller of two numbers; NaN loses against any number.
pub open spec fn f_min(a: Double, b: Double) -> Double {
    if a.is_nan() {
        b
    } else if b.is_nan() {
        a
    } else if a.key() <= b.key() {
        a
    } else {
        b
    }
}

/// `x` kept from `low` to `high`; NaN stays NaN.
pub open spec fn f_clamp(x: Double, low: Double, high: Double) -> Double {
    if f_less(x, low) {
        low
    } else if f_less(high, x) {
        high
    } else {
        x
    }
}

/// `a < b`; nothing is below or above NaN.
pub open spec fn f_less(a: Double, b: Double) -> bool {
    !a.is_nan() && !b.is_nan() && a.key() < b.key()
}

/// `a <= b`; nothing is below or above NaN.
pub open spec fn f_at_most(a: Double, b: Double) -> bool {
    !a.is_nan() && !b.is_nan() && a.key() <= b.key()
}

/// `a == b`; NaN equals nothing.
pub open spec fn f_same(a: Double, b: Double) -> bool {
    !a.is_nan() && !b.is_nan() && a.key() == b.key()
}

/// The value of a magnitude, in units.
fn units_of(c: u64) -> (r: Big)
    requires
        c <= INFINITE,
    ensures
        r@ == units(c as nat),
{
    let mant: u64 = if c < BINADE {
        c
    } else {
        BINADE + c % BINADE
    };
    let shift: u32 = if c < BINADE {
        0
    } else {
        (c / BINADE - 1) as u32
    };
    let one = Big::zero().scaled(1, 1);
    let whole = one.times_split((mant / 0x1_0000_0000) as u32, (mant % 0x1_0000_0000) as u32);
    proof {
        let high = (mant / 0x1_0000_0000) as u32;
        let low = (mant % 0x1_0000_0000) as u32;
        assert(mant == high * 0x1_0000_0000 + low);
        assert(1 * (high * 0x1_0000_0000 + low) == mant);
        assert(shift == exponent(c as nat) + 1074);
    }
    whole.shifted(shift)
}

fn magnitude_of(x: Double) -> (r: u64)
    ensures
        r == x.magnitude(),
{
    if x.bits >= SIGN {
        x.bits - SIGN
    } else {
        x.bits
    }
}

/// The nearest number of the sign `negative` to `num / den`.
fn round(num: &Big, den: &Big, negative: bool) -> (r: Double)
    requires
        den@ > 0,
        negative ==> num@ > 0,
    ensures
        r == rounded(
            if negative {
                -(num@ as int)
            } else {
                num@ as int
            },
            den@,
        ),
        r.magnitude() <= INFINITE,
{
    let c = nearest_magnitude(num, den);
    let r = Double {
        bits: if negative {
            c + SIGN
        } else {
            c
        },
    };
    proof {
        lemma_rounded(
            if negative {
                -(num@ as int)
            } else {
                num@ as int
            },
            den@,
            r,
        );
    }
    r
}

fn unit_count() -> (r: Big)
    ensures
        r@ == one_units(),
        r@ > 0,
{
    let one = Big::zero().scaled(1, 1);
    let r = one.shifted(1074);
    proof {
        assert(1 * power(2, 1074) == power(2, 1074));
        lemma_power_positive(2, 1074);
    }
    r
}

fn signed_zero(negative: bool) -> (r: Double)
    ensures
        r == zero(negative),
{
    if negative {
        Double { bits: SIGN }
    } else {
        Double { bits: 0 }
    }
}

/// The nearest number to `a + b`, for finite numbers.
fn finite_sum(a: Double, b: Double) -> (r: Double)
    requires
        a.wf(),
        b.wf(),
    ensures
        r == if exact(a) + exact(b) == 0 {
            zero(a.negative() && b.negative())
        } else {
            rounded(exact(a) + exact(b), one_units())
        },
{
    let x = units_of(magnitude_of(a));
    let y = units_of(magnitude_of(b));
    let a_negative = a.bits >= SIGN;
    let b_negative = b.bits >= SIGN;
    let den = unit_count();
    if a_negative == b_negative {
        let total = x.plus(&y);
        let zero = Big::zero();
        let is_zero = match total.sides(&zero) {
            Sides::Same => true,
            _ => false,
        };
        if is_zero {
            signed_zero(a_negative)
        } else {
            round(&total, &den, a_negative)
        }
    } else {
        match x.sides(&y) {
            Sides::Less => {
                let d = y.minus(&x);
                round(&d, &den, b_negative)
            },
            Sides::Same => signed_zero(false),
            Sides::More => {
                let d = x.minus(&y);
                round(&d, &den, a_negative)
            },
        }
    }
}

/// `-a`.
pub fn negated(a: Double) -> (r: Double)
    ensures
        r == f_neg(a),
{
    if a.bits >= SIGN {
        Double { bits: a.bits - SIGN }
    } else {
        Double { bits: a.bits + SIGN }
    }
}

/// `a + b`.
pub fn plus(a: Double, b: Double) -> (r: Double)
    ensures
        r == f_add(a, b),
{
    proof {
        reveal(f_add);
    }
    let x = magnitude_of(a);
    let y = magnitude_of(b);
    if x > INFINITE || y > INFINITE || (x == INFINITE && y == INFINITE && (a.bits >= SIGN) != (
    b.bits >= SIGN)) {
        Double { bits: NOT_A_NUMBER }
    } else if x == INFINITE {
        a
    } else if y == INFINITE {
        b
    } else {
        finite_sum(a, b)
    }
}

/// `a - b`.
pub fn minus(a: Double, b: Double) -> (r: Double)
    ensures
        r == f_sub(a, b),
{
    plus(a, negated(b))
}

/// `a * b`.
pub fn times(a: Double, b: Double) -> (r: Double)
    ensures
        r == f_mul(a, b),
{
    proof {
        reveal(f_mul);
    }
    let x = magnitude_of(a);
    let y = magnitude_of(b);
    if x > INFINITE || y > INFINITE {
        Double { bits: NOT_A_NUMBER }
    } else if x == INFINITE || y == INFINITE {
        if x == 0 || y == 0 {
            Double { bits: NOT_A_NUMBER }
        } else if (a.bits >= SIGN) != (b.bits >= SIGN) {
            Double { bits: INFINITE + SIGN }
        } else {
            Double { bits: INFINITE }
        }
    } else {
        finite_product(a, b)
    }
}

fn finite_product(a: Double, b: Double) -> (r: Double)
    requires
        a.wf(),
        b.wf(),
    ensures
        r == if exact(a) * exact(b) == 0 {
            zero(a.negative() != b.negative())
        } else {
            rounded(exact(a) * exact(b), one_units() * one_units())
        },
{
    let x = units_of(magnitude_of(a));
    let c = magnitude_of(b);
    let mant: u64 = if c < BINADE {
        c
    } else {
        BINADE + c % BINADE
    };
    let shift: u32 = if c < BINADE {
        0
    } else {
        (c / BINADE - 1) as u32
    };
    let high: u32 = (mant / 0x1_0000_0000) as u32;
    let low: u32 = (mant % 0x1_0000_0000) as u32;
    let product = x.times_split(high, low).shifted(shift);
    let den = unit_count().shifted(1074);
    let negative = (a.bits >= SIGN) != (b.bits >= SIGN);
    let zero = Big::zero();
    let is_zero = match product.sides(&zero) {
        Sides::Same => true,
        _ => false,
    };
    proof {
        assert(mant == high * 0x1_0000_0000 + low);
        assert(shift == exponent(c as nat) + 1074);
        let ua = units(a.magnitude());
        let ub = units(b.magnitude());
        let p = power(2, shift as nat);
        assert(ua * mant * p == ua * (mant * p)) by (nonlinear_arith);
        assert(product@ == ua * ub);
        lemma_power_positive(2, 1074);
        assert(one_units() * one_units() > 0) by (nonlinear_arith)
            requires
                one_units() > 0,
        ;
        lemma_sign_product(ua as int, ub as int);
    }
    if is_zero {
        signed_zero(negative)
    } else {
        round(&product, &den, negative)
    }
}

proof fn lemma_sign_product(a: int, b: int)
    ensures
        (-a) * b == -(a * b),
        a * (-b) == -(a * b),
        (-a) * (-b) == a * b,
{
    assert((-a) * b == -(a * b)) by (nonlinear_arith);
    assert(a * (-b) == -(a * b)) by (nonlinear_arith);
    assert((-a) * (-b) == a * b) by (nonlinear_arith);
}

pub proof fn lemma_units_positive(c: nat)
    requires
        c > 0,
    ensures
        units(c) > 0,
{
    lemma_power_positive(2, (exponent(c) + 1074) as nat);
    let m = mantissa(c);
    let p = power(2, (exponent(c) + 1074) as nat);
    assert(m * p > 0) by (nonlinear_arith)
        requires
            m > 0,
            p > 0,
    ;
}

/// `a / b`, for `b` that is not zero.
pub fn divided(a: Double, b: Double) -> (r: Double)
    requires
        b.key() != 0,
    ensures
        r == f_div(a, b),
{
    proof {
        reveal(f_div);
    }
    let m = magnitude_of(a);
    let n = magnitude_of(b);
    let negative = (a.bits >= SIGN) != (b.bits >= SIGN);
    if m > INFINITE || n > INFINITE || (m == INFINITE && n == INFINITE) {
        return Double { bits: NOT_A_NUMBER };
    }
    if m == INFINITE {
        return if negative {
            Double { bits: INFINITE + SIGN }
        } else {
            Double { bits: INFINITE }
        };
    }
    if n == INFINITE {
        return signed_zero(negative);
    }
    let x = units_of(m);
    let y = units_of(n);
    let zero = Big::zero();
    let is_zero = match x.sides(&zero) {
        Sides::Same => true,
        _ => false,
    };
    proof {
        lemma_units_positive(b.magnitude());
    }
    if is_zero {
        signed_zero(negative)
    } else {
        round(&x, &y, negative)
    }
}

/// Whether the root of `u` units reaches the magnitude `b`.
fn has_root_reached(u: &Big, b: u64) -> (r: bool)
    requires
        b <= INFINITE,
    ensures
        r == root_reaches(u@, b as nat),
{
    if b == 0 {
        return true;
    }
    let c = b - 1;
    let mant: u64 = if c < BINADE {
        c
    } else {
        BINADE + c % BINADE
    };
    let shift: u32 = if c < BINADE {
        0
    } else {
        (c / BINADE - 1) as u32
    };
    let odd: u64 = 2 * mant + 1;
    let high: u32 = (odd / 0x1_0000_0000) as u32;
    let low: u32 = (odd % 0x1_0000_0000) as u32;
    let one = Big::zero().scaled(1, 1);
    let square = one.times_split(high, low).times_split(high, low).shifted(shift).shifted(shift);
    let left = u.shifted(1074).scaled(4, 0);
    proof {
        assert(odd == high * 0x1_0000_0000 + low);
        assert(shift == exponent(c as nat) + 1074);
        assert(mant == mantissa(c as nat));
        let p = power(2, shift as nat);
        let o = odd as nat;
        assert(1 * o == o);
        assert(square@ == o * o * p * p);
        assert(o * o * p * p == (o * p) * (o * p)) by (nonlinear_arith);
        assert(left@ == (u@ * one_units()) * 4 + 0);
        assert((u@ * one_units()) * 4 == 4 * u@ * one_units()) by (nonlinear_arith);
    }
    match left.sides(&square) {
        Sides::More => true,
        Sides::Same => b % 2 == 0,
        Sides::Less => false,
    }
}

pub proof fn lemma_twice_middle_grows(a: nat, b: nat)
    requires
        a < b,
    ensures
        twice_middle(a) < twice_middle(b),
    decreases b,
{
    if a + 1 < b {
        lemma_twice_middle_grows(a, (b - 1) as nat);
    }
    let p = (b - 1) as nat;
    let j = (exponent(p) + 1074) as nat;
    let q = power(2, j);
    lemma_power_positive(2, j);
    let m = mantissa(p);
    if exponent(b) == exponent(p) {
        assert(mantissa(b) == m + 1);
        assert((2 * m + 1) * q < (2 * (m + 1) + 1) * q) by (nonlinear_arith)
            requires
                q > 0,
        ;
    } else {
        assert(mantissa(b) == BINADE && m == 2 * BINADE - 1);
        assert(exponent(b) == exponent(p) + 1);
        assert(power(2, (j + 1) as nat) == 2 * q);
        let n = BINADE as nat;
        assert((2 * (2 * n - 1) + 1) * q < (2 * n + 1) * (2 * q)) by (nonlinear_arith)
            requires
                q > 0,
                n > 0,
        ;
    }
}

/// What reaches a magnitude reaches every one below it.
pub proof fn lemma_root_below(u: nat, a: nat, b: nat)
    requires
        a <= b,
        root_reaches(u, b),
    ensures
        root_reaches(u, a),
{
    if a > 0 && a < b {
        lemma_twice_middle_grows((a - 1) as nat, (b - 1) as nat);
        let x = twice_middle((a - 1) as nat);
        let y = twice_middle((b - 1) as nat);
        assert(x * x < y * y) by (nonlinear_arith)
            requires
                0 <= x < y,
        ;
    }
}

/// The square root of `a`.
pub fn square_root(a: Double) -> (r: Double)
    ensures
        r == f_sqrt(a),
{
    proof {
        reveal(f_sqrt);
    }
    let m = magnitude_of(a);
    if m > INFINITE || (a.bits >= SIGN && m > 0) {
        return Double { bits: NOT_A_NUMBER };
    }
    if m == INFINITE || m == 0 {
        return a;
    }
    let u = units_of(m);
    let mut lo: u64 = 0;
    let mut hi: u64 = INFINITE + 1;
    while hi - lo > 1
        invariant
            lo < hi <= INFINITE + 1,
            u@ == units(a.magnitude()),
            root_reaches(u@, lo as nat),
            hi <= INFINITE ==> !root_reaches(u@, hi as nat),
        decreases hi - lo,
    {
        let mid: u64 = lo + (hi - lo) / 2;
        if has_root_reached(&u, mid) {
            lo = mid;
        } else {
            hi = mid;
        }
    }
    let r = Double { bits: lo };
    proof {
        assert(is_root(u@, r));
        let s = f_sqrt(a);
        assert(is_root(u@, s));
        if r.bits < s.bits {
            lemma_root_below(u@, (r.bits + 1) as nat, s.bits as nat);
        } else if s.bits < r.bits {
            lemma_root_below(u@, (s.bits + 1) as nat, r.bits as nat);
        }
    }
    r
}

/// The number of the binary32 format nearest to `a`.
pub fn narrowed(a: Double) -> (r: Double)
    ensures
        r == f_narrow(a),
{
    let m = magnitude_of(a);
    let negative = a.bits >= SIGN;
    if m > INFINITE {
        Double { bits: NOT_A_NUMBER }
    } else if m >= SINGLE_LIMIT {
        if negative {
            Double { bits: INFINITE + SIGN }
        } else {
            Double { bits: INFINITE }
        }
    } else if m >= LEAST_NORMAL_SINGLE {
        let q: u64 = m / 0x2000_0000;
        let r: u64 = m % 0x2000_0000;
        let short: u64 = if r > 0x1000_0000 || (r == 0x1000_0000 && q % 2 == 1) {
            (q + 1) * 0x2000_0000
        } else {
            q * 0x2000_0000
        };
        if negative {
            Double { bits: short + SIGN }
        } else {
            Double { bits: short }
        }
    } else {
        let shift = Double { bits: TINY_SHIFT };
        let r = minus(plus(absolute(a), shift), shift);
        if negative {
            negated(r)
        } else {
            r
        }
    }
}

/// The remainder of `a / b` that is not negative, for a finite `b` above zero.
pub fn remainder_euclid(a: Double, b: Double) -> (r: Double)
    requires
        0 < b.key() < INFINITE,
    ensures
        r == f_rem_euclid(a, b),
{
    proof {
        reveal(f_rem);
    }
    let m = magnitude_of(a);
    if m >= INFINITE {
        return Double { bits: NOT_A_NUMBER };
    }
    let x = units_of(m);
    let y = units_of(magnitude_of(b));
    proof {
        lemma_units_positive(b.magnitude());
    }
    let left = x.remainder(&y);
    let den = unit_count();
    let size = round(&left, &den, false);
    let r = if a.bits >= SIGN {
        negated(size)
    } else {
        size
    };
    proof {
        assert(abs(exact(a)) == units(a.magnitude()));
        assert(abs(exact(b)) == units(b.magnitude()));
        lemma_rounded_exists(left@ as int, one_units());
    }
    if r.bits > SIGN {
        plus(r, b)
    } else {
        r
    }
}

/// There is a nearest number to every quotient.
pub proof fn lemma_rounded_exists(num: int, den: nat)
    requires
        den > 0,
    ensures
        is_rounded(num, den, rounded(num, den)),
{
    let n = abs(num);
    let c = lemma_find_nearest(n, den, INFINITE as nat);
    let r = (Double {
        bits: (c + if num < 0 {
            SIGN as nat
        } else {
            0
        }) as u64,
    });
    assert(r.magnitude() == c);
    assert(is_rounded(num, den, r));
}

proof fn lemma_find_nearest(n: nat, den: nat, top: nat) -> (c: nat)
    requires
        den > 0,
        top <= INFINITE,
        top == INFINITE || !reaches(n, den, top + 1),
    ensures
        c <= INFINITE,
        c < INFINITE ==> nearest(n, den, c),
        c == INFINITE ==> reaches(n, den, INFINITE as nat),
    decreases top,
{
    if reaches(n, den, top) {
        top
    } else {
        lemma_find_nearest(n, den, (top - 1) as nat)
    }
}

/// `a` without its sign.
pub fn absolute(a: Double) -> (r: Double)
    ensures
        r == f_abs(a),
{
    Double { bits: magnitude_of(a) }
}

/// The larger of `a` and `b`.
pub fn maximum(a: Double, b: Double) -> (r: Double)
    ensures
        r == f_max(a, b),
{
    if magnitude_of(a) > INFINITE {
        b
    } else if magnitude_of(b) > INFINITE {
        a
    } else if a.at_most(b) {
        b
    } else {
        a
    }
}

/// The smaller of `a` and `b`.
pub fn minimum(a: Double, b: Double) -> (r: Double)
    ensures
        r == f_min(a, b),
{
    if magnitude_of(a) > INFINITE {
        b
    } else if magnitude_of(b) > INFINITE {
        a
    } else if a.at_most(b) {
        a
    } else {
        b
    }
}

/// `a < b`.
pub fn less(a: Double, b: Double) -> (r: bool)
    ensures
        r == f_less(a, b),
{
    magnitude_of(a) <= INFINITE && magnitude_of(b) <= INFINITE && !b.at_most(a)
}

/// `x` kept from `low` to `high`.
pub fn clamped(x: Double, low: Double, high: Double) -> (r: Double)
    ensures
        r == f_clamp(x, low, high),
{
    if less(x, low) {
        low
    } else if less(high, x) {
        high
    } else {
        x
    }
}

/// `a <= b`.
pub fn at_most(a: Double, b: Double) -> (r: bool)
    ensures
        r == f_at_most(a, b),
{
    magnitude_of(a) <= INFINITE && magnitude_of(b) <= INFINITE && a.at_most(b)
}

/// `a == b`.
pub fn same(a: Double, b: Double) -> (r: bool)
    ensures
        r == f_same(a, b),
{
    magnitude_of(a) <= INFINITE && magnitude_of(b) <= INFINITE && a.equals(b)
}

/// `r` is `x` rounded to a whole number, halves upwards, and kept from 0 to 255;
/// it is 0 where `x` is NaN.
pub open spec fn is_byte_of(x: Double, r: u8) -> bool {
    &&& x.is_nan() ==> r == 0
    &&& !x.is_nan() ==> is_near_byte(x, r)
}

/// `r` is `x` rounded to a whole number, halves upwards, and kept from 0 to 255.
pub open spec fn is_near_byte(x: Double, r: u8) -> bool {
    &&& r > 0 ==> 2 * exact(x) >= (2 * r - 1) * one_units()
    &&& r < 255 ==> 2 * exact(x) < (2 * r + 1) * one_units()
}

/// The whole number nearest to `x`, kept from 0 to 255.
pub fn byte_of(x: Double) -> (r: u8)
    ensures
        is_byte_of(x, r),
{
    if magnitude_of(x) > INFINITE {
        return 0;
    }
    if x.bits >= SIGN {
        proof {
            lemma_power_positive(2, 1074);
            assert((2 * 0u8 + 1) * one_units() == one_units()) by (nonlinear_arith);
        }
        return 0;
    }
    let twice = units_of(x.bits).scaled(2, 0);
    let one = unit_count();
    let mut n: u8 = 0;
    while n < 255
        invariant
            one@ == one_units(),
            !x.is_nan(),
            !x.negative(),
            twice@ == 2 * units(x.magnitude()),
            n > 0 ==> 2 * exact(x) >= (2 * n - 1) * one_units(),
        ensures
            is_byte_of(x, n),
        decreases 255 - n,
    {
        let next = one.scaled(2 * (n as u32) + 1, 0);
        assert(next@ == (2 * n + 1) * one_units()) by (nonlinear_arith)
            requires
                next@ == one_units() * (2 * n + 1) + 0,
        ;
        match twice.sides(&next) {
            Sides::Less => {
                break;
            },
            _ => {},
        }
        n += 1;
    }
    n
}

/// Just above half of the gap below a magnitude and just below half of the gap
/// above it: a number is the nearest to its own value.
pub proof fn lemma_own_value(c: nat)
    requires
        c < INFINITE,
    ensures
        nearest(units(c), one_units(), c),
{
    lemma_power_positive(2, 1074);
    // The gap above `c`.
    let g = power(2, (exponent(c) + 1074) as nat);
    let mc = mantissa(c);
    assert(2 * (mc * g) == (2 * mc) * g) by (nonlinear_arith);
    lemma_gap(units(c), 2 * mantissa(c), c);
    if c > 0 {
        let p = (c - 1) as nat;
        let j = (exponent(p) + 1074) as nat;
        let q = power(2, j);
        assert(units(c) == (mantissa(p) + 1) * q) by {
            if exponent(c) != exponent(p) {
                assert(mantissa(c) == BINADE && mantissa(p) == 2 * BINADE - 1);
                assert(exponent(c) == exponent(p) + 1);
                assert(power(2, (j + 1) as nat) == 2 * q);
                assert(BINADE as nat * (2 * q) == (2 * BINADE as nat) * q) by (nonlinear_arith);
            } else {
                assert(mantissa(c) == mantissa(p) + 1);
            }
        }
        let mp = mantissa(p);
        assert(2 * ((mp + 1) * q) == (2 * mp + 2) * q) by (nonlinear_arith);
        lemma_gap(units(c), 2 * mantissa(p) + 2, p);
    }
}

/// Where `n` is half of `h` times the unit of `p`, the middle above `p` is passed
/// exactly where `h` passes twice the mantissa plus one.
proof fn lemma_gap(n: nat, h: nat, p: nat)
    requires
        2 * n == h * power(2, (exponent(p) + 1074) as nat),
        p < INFINITE,
    ensures
        h > 2 * mantissa(p) + 1 ==> reaches(n, one_units(), p + 1),
        h < 2 * mantissa(p) + 1 ==> !reaches(n, one_units(), p + 1),
{
    let m = 2 * mantissa(p) + 1;
    let k = exponent(p) - 1;
    let j = (exponent(p) + 1074) as nat;
    let u = one_units();
    let q = power(2, j);
    lemma_power_positive(2, 1074);
    lemma_power_positive(2, j);
    let l = n * power(2, at_least_zero(-k));
    let r = m * power(2, at_least_zero(k)) * u;
    if k < 0 {
        let t = power(2, (-k) as nat);
        assert(t * q == 2 * u) by {
            lemma_power_add(2, (-k) as nat, j);
            assert((-k) as nat + j == 1075);
            assert(power(2, 1075) == 2 * power(2, 1074));
        }
        assert(power(2, at_least_zero(k)) == 1);
        assert(2 * l == 2 * (h * u)) by (nonlinear_arith)
            requires
                l == n * t,
                2 * n == h * q,
                t * q == 2 * u,
        ;
        assert(r == m * u) by (nonlinear_arith)
            requires
                r == m * 1 * u,
        ;
        assert(h > m ==> h * u > m * u) by (nonlinear_arith)
            requires
                u > 0,
        ;
        assert(h < m ==> h * u < m * u) by (nonlinear_arith)
            requires
                u > 0,
        ;
    } else {
        let t = power(2, k as nat);
        lemma_power_positive(2, k as nat);
        assert(q == 2 * (t * u)) by {
            lemma_power_add(2, k as nat, 1074);
            assert(j == k + 1074 + 1);
            assert(power(2, j) == 2 * power(2, (k + 1074) as nat));
        }
        assert(power(2, at_least_zero(-k)) == 1);
        assert(l == n) by (nonlinear_arith)
            requires
                l == n * 1,
        ;
        let w = t * u;
        assert(w > 0) by (nonlinear_arith)
            requires
                w == t * u,
                t > 0,
                u > 0,
        ;
        assert(2 * n == 2 * (h * w)) by (nonlinear_arith)
            requires
                2 * n == h * q,
                q == 2 * w,
        ;
        assert(r == m * w) by (nonlinear_arith)
            requires
                r == m * t * u,
                w == t * u,
        ;
        assert(h > m ==> h * w > m * w) by (nonlinear_arith)
            requires
                w > 0,
        ;
        assert(h < m ==> h * w < m * w) by (nonlinear_arith)
            requires
                w > 0,
        ;
    }
}

/// The whole number `n`, as nearly as it can be held.
pub open spec fn whole(n: nat) -> Double {
    rounded(n as int, 1)
}

/// Whole numbers below 2 to the power 53 are held exactly.
pub proof fn lemma_whole(n: nat)
    requires
        n < 2 * BINADE,
    ensures
        whole(n).wf(),
        !whole(n).negative(),
        exact(whole(n)) == n * one_units(),
        exact(whole(n)) == 0 <==> n == 0,
        n == 0 ==> whole(n) == zero(false),
        rounded(n * one_units() as int, one_units()) == whole(n),
{
    let u = one_units();
    lemma_power_positive(2, 1074);
    let c: nat;
    if n == 0 {
        c = 0;
        assert(power(2, 0) == 1);
        assert(0 * power(2, 0) == 0);
        assert(0 * u == 0);
    } else {
        assert(n * power(2, 0) == n) by (nonlinear_arith)
            requires
                power(2, 0) == 1,
        ;
        let s = lemma_normal(n, 0);
        let p = power(2, s);
        let m = n * p;
        c = ((1074 - s) * BINADE + m) as nat;
        assert(BINADE <= m < 2 * BINADE);
        assert(c % (BINADE as nat) == m - BINADE && c / (BINADE as nat) == 1075 - s) by {
            lemma_fundamental_div_mod_converse(
                c as int,
                BINADE as int,
                1075 - s,
                m - BINADE,
            );
        }
        assert(c >= BINADE);
        assert(mantissa(c) == m);
        assert(exponent(c) == -s);
        lemma_power_add(2, s, (1074 - s) as nat);
        let q = power(2, (1074 - s) as nat);
        assert((n * p) * q == n * (p * q)) by (nonlinear_arith);
        assert(units(c) == n * u);
    }
    let x = (Double { bits: c as u64 });
    assert(x.magnitude() == c);
    lemma_own_value(c);
    lemma_rounded(n * u as int, u, x);
    // The same quotient, written as `n / 1`.
    assert forall|b: nat| #[trigger] reaches(n, 1, b) == reaches(n * u, u, b) by {
        if b > 0 {
            let m = 2 * mantissa((b - 1) as nat) + 1;
            let k = exponent((b - 1) as nat) - 1;
            let t = power(2, at_least_zero(-k));
            let w = m * power(2, at_least_zero(k));
            assert((n * u) * t == (n * t) * u) by (nonlinear_arith);
            assert(w * 1 == w);
            assert((n * t > w) == ((n * t) * u > w * u)) by (nonlinear_arith)
                requires
                    u > 0,
            ;
            assert((n * t == w) == ((n * t) * u == w * u)) by (nonlinear_arith)
                requires
                    u > 0,
            ;
        }
    }
    assert(nearest(n, 1, c));
    lemma_rounded(n as int, 1, x);
    assert(n * u == 0 <==> n == 0) by (nonlinear_arith)
        requires
            u > 0,
    ;
}

/// A shift that brings `n` to 53 bits.
pub proof fn lemma_normal(n: nat, s: nat) -> (r: nat)
    requires
        n > 0,
        n < 2 * BINADE,
        s <= 52,
        n * power(2, s) < 2 * BINADE,
    ensures
        r <= 52,
        BINADE <= n * power(2, r) < 2 * BINADE,
    decreases 52 - s,
{
    let p = power(2, s);
    assert(n * power(2, 0) == n) by (nonlinear_arith)
        requires
            power(2, 0) == 1,
    ;
    if n * p >= BINADE {
        s
    } else {
        assert(power(2, s + 1) == 2 * p);
        assert(n * (2 * p) == 2 * (n * p)) by (nonlinear_arith);
        if s == 52 {
            assert(power(2, 52) == BINADE) by {
                lemma_power_add(2, 26, 26);
                reveal_with_fuel(power, 27);
            }
            assert(n * p >= p) by (nonlinear_arith)
                requires
                    n >= 1,
                    p >= 0,
            ;
            s
        } else {
            lemma_normal(n, s + 1)
        }
    }
}

/// Sums of whole numbers are exact.
pub proof fn lemma_whole_sum(a: nat, b: nat)
    requires
        a + b < 2 * BINADE,
    ensures
        f_add(whole(a), whole(b)) == whole(a + b),
{
    reveal(f_add);
    lemma_whole(a);
    lemma_whole(b);
    lemma_whole(a + b);
    let u = one_units();
    assert(a * u + b * u == (a + b) * u) by (nonlinear_arith);
}

/// Differences of whole numbers are exact.
pub proof fn lemma_whole_difference(a: nat, b: nat)
    requires
        b <= a < 2 * BINADE,
    ensures
        f_sub(whole(a), whole(b)) == whole((a - b) as nat),
{
    reveal(f_add);
    lemma_whole(a);
    lemma_whole(b);
    lemma_whole((a - b) as nat);
    let u = one_units();
    assert(a * u - b * u == (a - b) * u) by (nonlinear_arith);
}

/// Products of whole numbers are exact.
pub proof fn lemma_whole_product(a: nat, b: nat)
    requires
        a < 2 * BINADE,
        b < 2 * BINADE,
        a * b < 2 * BINADE,
    ensures
        f_mul(whole(a), whole(b)) == whole(a * b),
{
    reveal(f_mul);
    lemma_whole(a);
    lemma_whole(b);
    lemma_whole(a * b);
    let u = one_units();
    let n = a * b;
    lemma_power_positive(2, 1074);
    let x = whole(n);
    let big = (n * u) * u;
    assert((a * u) * (b * u) == big) by (nonlinear_arith)
        requires
            n == a * b,
            big == (n * u) * u,
    ;
    assert(u * u > 0) by (nonlinear_arith)
        requires
            u > 0,
    ;
    lemma_own_value(x.magnitude());
    assert forall|c: nat| #[trigger] reaches(n * u, u, c) == reaches(big, u * u, c) by {
        if c > 0 {
            let m = 2 * mantissa((c - 1) as nat) + 1;
            let k = exponent((c - 1) as nat) - 1;
            let t = power(2, at_least_zero(-k));
            let w = m * power(2, at_least_zero(k)) * u;
            let l = (n * u) * t;
            assert(big * t == l * u) by (nonlinear_arith)
                requires
                    big == (n * u) * u,
                    l == (n * u) * t,
            ;
            let z = m * power(2, at_least_zero(k));
            assert(z * (u * u) == (z * u) * u) by (nonlinear_arith);
            assert((l > w) == (l * u > w * u)) by (nonlinear_arith)
                requires
                    u > 0,
            ;
            assert((l == w) == (l * u == w * u)) by (nonlinear_arith)
                requires
                    u > 0,
            ;
        }
    }
    assert(nearest(big, u * u, x.magnitude()));
    lemma_rounded(big as int, u * u, x);
    assert(big == 0 <==> n == 0) by (nonlinear_arith)
        requires
            big == (n * u) * u,
            u > 0,
    ;
}

/// The whole number `n` as a number.
pub fn from_count(n: u64) -> (r: Double)
    ensures
        r == whole(n as nat),
        r.magnitude() <= INFINITE,
{
    let one = Big::zero().scaled(1, 1);
    let num = one.times_split((n / 0x1_0000_0000) as u32, (n % 0x1_0000_0000) as u32);
    proof {
        let high = (n / 0x1_0000_0000) as u32;
        let low = (n % 0x1_0000_0000) as u32;
        assert(n == high * 0x1_0000_0000 + low);
        assert(1 * (high * 0x1_0000_0000 + low) == n);
    }
    round(&num, &one, false)
}

/// `x / 2`.
pub open spec fn half(x: Double) -> Double {
    f_div(x, whole(2))
}

/// `x / 2`.
pub fn halved(x: Double) -> (r: Double)
    ensures
        r == half(x),
{
    proof {
        lemma_positive(2);
    }
    divided(x, from_count(2))
}

/// Half of a number is a number.
pub proof fn lemma_half_is_number(x: Double)
    requires
        !x.is_nan(),
    ensures
        !half(x).is_nan(),
{
    reveal(f_div);
    lemma_positive(2);
    let two = whole(2);
    lemma_whole(2);
    lemma_not_zero(two);
    if !x.is_infinite() {
        lemma_rounded_exists(
            if two.negative() {
                -exact(x)
            } else {
                exact(x)
            },
            abs(exact(two)),
        );
    }
}

/// Whole numbers above zero are held as numbers above zero.
pub proof fn lemma_positive(n: nat)
    requires
        0 < n,
    ensures
        0 < whole(n).key(),
{
    lemma_rounded_exists(n as int, 1);
    if whole(n).magnitude() == 0 {
        lemma_power_positive(2, 1074);
        let p = power(2, 1075);
        assert(p == 2 * power(2, 1074));
        assert(exponent(0) - 1 == -1075);
        assert(at_least_zero(1075) == 1075);
        assert(mantissa(0) == 0);
        assert(power(2, at_least_zero(-1075)) == 1);
        let m = 2 * mantissa(0) + 1;
        let q = power(2, at_least_zero(-1075));
        assert(m * q * 1 == 1) by (nonlinear_arith)
            requires
                m == 1,
                q == 1,
        ;
        assert(n * p > 1) by (nonlinear_arith)
            requires
                n > 0,
                p >= 2,
        ;
        assert(reaches(n, 1, 1));
    }
}

/// How a number divides into a whole part and a rest below one.
struct Parts {
    /// The whole part; none where it does not fit.
    whole: Option<u64>,
    /// The rest is not zero.
    rest: bool,
    /// The rest is at least a half.
    half: bool,
}

spec fn are_parts(c: nat, p: Parts) -> bool {
    let u = one_units() as int;
    let n = units(c) as int;
    &&& match p.whole {
        Some(w) => n / u == w,
        None => n / u > u64::MAX,
    }
    &&& p.rest == (n % u != 0)
    &&& p.half == (2 * (n % u) >= u)
}

/// A unit times `t` makes one; the parts of `m` units are those of `m / t`.
proof fn lemma_parts(c: nat, m: nat, t: nat, q: nat)
    requires
        units(c) == m * q,
        one_units() == t * q,
        t > 0,
        q > 0,
    ensures
        units(c) as int / one_units() as int == m as int / t as int,
        units(c) as int % one_units() as int == (m as int % t as int) * q,
        2 * ((m as int % t as int) * q) >= one_units() <==> 2 * (m as int % t as int) >= t,
        (m as int % t as int) * q == 0 <==> m as int % t as int == 0,
{
    let d = m as int / t as int;
    let r = m as int % t as int;
    let u = one_units() as int;
    assert(m == t * d + r && 0 <= r < t) by {
        vstd::arithmetic::div_mod::lemma_fundamental_div_mod(m as int, t as int);
        vstd::arithmetic::div_mod::lemma_mod_bound(m as int, t as int);
    }
    assert(m * q == d * (t * q) + r * q) by (nonlinear_arith)
        requires
            m == t * d + r,
    ;
    assert(0 <= r * q < t * q) by (nonlinear_arith)
        requires
            0 <= r < t,
            q > 0,
    ;
    lemma_fundamental_div_mod_converse(units(c) as int, u, d, r * q);
    assert(2 * (r * q) >= t * q <==> 2 * r >= t) by (nonlinear_arith)
        requires
            q > 0,
    ;
    assert(r * q == 0 <==> r == 0) by (nonlinear_arith)
        requires
            q > 0,
            r >= 0,
    ;
}

/// 2 to the power `s`.
fn power_of_two(s: u64) -> (t: u64)
    requires
        s <= 54,
    ensures
        t == power(2, s as nat),
        0 < t <= 0x40_0000_0000_0000,
{
    let mut t: u64 = 1;
    let mut i: u64 = 0;
    proof {
        lemma_power_54();
    }
    while i < s
        invariant
            i <= s <= 54,
            t == power(2, i as nat),
            t > 0,
            power(2, 54) == 0x40_0000_0000_0000,
        decreases s - i,
    {
        proof {
            lemma_power_add(2, i as nat + 1, (54 - i - 1) as nat);
            lemma_power_positive(2, (54 - i - 1) as nat);
            let a = power(2, i as nat + 1);
            let b = power(2, (54 - i - 1) as nat);
            assert(a <= a * b) by (nonlinear_arith)
                requires
                    b >= 1,
                    a >= 0,
            ;
        }
        t = 2 * t;
        i += 1;
    }
    proof {
        lemma_power_add(2, s as nat, (54 - s) as nat);
        lemma_power_positive(2, (54 - s) as nat);
        let a = power(2, s as nat);
        let b = power(2, (54 - s) as nat);
        assert(a <= a * b) by (nonlinear_arith)
            requires
                b >= 1,
                a >= 0,
        ;
    }
    t
}

proof fn lemma_power_54()
    ensures
        power(2, 54) == 0x40_0000_0000_0000,
        power(2, 12) == 4096,
{
    lemma_power_add(2, 27, 27);
    reveal_with_fuel(power, 28);
}

/// Divides the number with the magnitude `c` into its parts.
fn parts(c: u64) -> (p: Parts)
    requires
        c < INFINITE,
    ensures
        are_parts(c as nat, p),
{
    let m: u64 = if c < BINADE {
        c
    } else {
        BINADE + c % BINADE
    };
    let field: u64 = if c < BINADE {
        1
    } else {
        c / BINADE
    };
    assert(m == mantissa(c as nat));
    assert(exponent(c as nat) == field - 1075);
    assert(m < 2 * BINADE);
    assert(1 <= field < 2047);
    proof {
        lemma_power_54();
        lemma_power_positive(2, 1074);
    }
    if field >= 1075 {
        let e: u64 = field - 1075;
        let ghost t = power(2, e as nat);
        proof {
            lemma_power_add(2, e as nat, 1074);
            let u = one_units();
            assert(m * (t * u) == (m * t) * u) by (nonlinear_arith);
            assert(e as nat + 1074 == exponent(c as nat) + 1074);
            assert(units(c as nat) == (m * t) * u);
            assert((m * t) * u == u * (m * t) + 0) by (nonlinear_arith);
            lemma_fundamental_div_mod_converse(
                units(c as nat) as int,
                u as int,
                (m * t) as int,
                0,
            );
        }
        if e > 11 {
            proof {
                lemma_power_add(2, 12, (e - 12) as nat);
                lemma_power_positive(2, (e - 12) as nat);
                let b = power(2, (e - 12) as nat);
                assert(m >= BINADE);
                assert(m * t >= 0x10_0000_0000_0000 * 4096) by (nonlinear_arith)
                    requires
                        m >= 0x10_0000_0000_0000,
                        t == 4096 * b,
                        b >= 1,
                ;
            }
            return Parts { whole: None, rest: false, half: false };
        }
        let f = power_of_two(e);
        proof {
            lemma_power_add(2, e as nat, (12 - e) as nat);
            lemma_power_positive(2, (12 - e) as nat);
            let b = power(2, (12 - e) as nat);
            if e < 12 {
                assert(power(2, (12 - e) as nat) == 2 * power(2, (11 - e) as nat));
                lemma_power_positive(2, (11 - e) as nat);
            }
            assert(f <= 2048) by (nonlinear_arith)
                requires
                    f * b == 4096,
                    b >= 2,
            ;
            assert(m * f <= 0x1f_ffff_ffff_ffff * 2048) by (nonlinear_arith)
                requires
                    m <= 0x1f_ffff_ffff_ffff,
                    f <= 2048,
            ;
        }
        return Parts { whole: Some(m * f), rest: false, half: false };
    }
    let s: u64 = 1075 - field;
    let ghost q = power(2, (1074 - s) as nat);
    let ghost t = power(2, s as nat);
    proof {
        lemma_power_add(2, s as nat, (1074 - s) as nat);
        lemma_power_positive(2, (1074 - s) as nat);
        lemma_power_positive(2, s as nat);
        assert((exponent(c as nat) + 1074) as nat == (1074 - s) as nat);
        lemma_parts(c as nat, m as nat, t, q);
    }
    if s > 54 {
        proof {
            lemma_power_add(2, 54, (s - 54) as nat);
            lemma_power_positive(2, (s - 54) as nat);
            let b = power(2, (s - 54) as nat);
            assert(t >= 0x40_0000_0000_0000) by (nonlinear_arith)
                requires
                    t == 0x40_0000_0000_0000 * b,
                    b >= 1,
            ;
            lemma_fundamental_div_mod_converse(m as int, t as int, 0, m as int);
        }
        return Parts { whole: Some(0), rest: m > 0, half: false };
    }
    let f = power_of_two(s);
    Parts { whole: Some(m / f), rest: m % f != 0, half: 2 * (m % f) >= f }
}

/// `x` without its fraction, kept from 0 to `max`; 0 where `x` is NaN.
pub open spec fn truncated(x: Double, max: nat) -> nat {
    if x.is_nan() || x.negative() {
        0
    } else if x.is_infinite() {
        max
    } else {
        let n = units(x.magnitude()) / one_units();
        if n <= max {
            n
        } else {
            max
        }
    }
}

/// `x` without its fraction, kept from 0 to `max`.
pub fn to_count(x: Double, max: u64) -> (r: u64)
    ensures
        r == truncated(x, max as nat),
        r <= max,
{
    let c: u64 = magnitude_of(x);
    if c > INFINITE || x.bits >= SIGN {
        return 0;
    }
    if c == INFINITE {
        return max;
    }
    match parts(c).whole {
        Some(w) => if w <= max {
            w
        } else {
            max
        },
        None => max,
    }
}

/// The least whole number that is not below `x`, kept from 0 to `max`; 0 where `x`
/// is NaN.
pub open spec fn raised(x: Double, max: nat) -> nat {
    if x.is_nan() || x.negative() {
        0
    } else if x.is_infinite() {
        max
    } else {
        let n = units(x.magnitude()) as int / one_units() as int;
        let up = if units(x.magnitude()) as int % one_units() as int == 0 {
            n
        } else {
            n + 1
        };
        if up <= max {
            up as nat
        } else {
            max
        }
    }
}

/// The least whole number that is not below `x`, kept from 0 to `max`.
pub fn raised_count(x: Double, max: u64) -> (r: u64)
    ensures
        r == raised(x, max as nat),
        r <= max,
{
    let c: u64 = magnitude_of(x);
    if c > INFINITE || x.bits >= SIGN {
        return 0;
    }
    if c == INFINITE {
        return max;
    }
    let p = parts(c);
    match p.whole {
        Some(w) => if w >= max {
            max
        } else if p.rest {
            w + 1
        } else {
            w
        },
        None => max,
    }
}

/// The bits of 2 to the power 52; from there on all numbers are whole.
pub const ALL_WHOLE: u64 = 0x4330_0000_0000_0000;

/// The whole number nearest to `x`, with its sign; a half goes away from zero.
pub open spec fn f_round(x: Double) -> Double {
    if x.magnitude() >= ALL_WHOLE {
        x
    } else {
        let n = units(x.magnitude()) as int / one_units() as int;
        let near = if 2 * (units(x.magnitude()) as int % one_units() as int) >= one_units() {
            n + 1
        } else {
            n
        };
        negated_if(x.negative(), whole(near as nat))
    }
}

/// The whole number nearest to `x`.
pub fn round_number(x: Double) -> (r: Double)
    ensures
        r == f_round(x),
{
    let c: u64 = magnitude_of(x);
    if c >= ALL_WHOLE {
        return x;
    }
    let p = parts(c);
    proof {
        lemma_below_all_whole(c as nat);
    }
    let w: u64 = match p.whole {
        Some(w) => w,
        None => 0,
    };
    let near: u64 = if p.half {
        w + 1
    } else {
        w
    };
    if x.bits >= SIGN {
        negated(from_count(near))
    } else {
        from_count(near)
    }
}

/// A whole number is the whole number nearest to it.
pub proof fn lemma_round_stays(x: Double)
    ensures
        f_round(f_round(x)) == f_round(x),
{
    let y = f_round(x);
    if x.magnitude() < ALL_WHOLE {
        let c = x.magnitude();
        lemma_below_all_whole(c);
        let u = one_units();
        lemma_power_positive(2, 1074);
        let n = units(c) as int / u as int;
        assert(n >= 0) by {
            vstd::arithmetic::div_mod::lemma_div_pos_is_pos(units(c) as int, u as int);
        }
        let near = if 2 * (units(c) as int % u as int) >= u {
            n + 1
        } else {
            n
        };
        let w = whole(near as nat);
        lemma_whole(near as nat);
        assert(units(w.magnitude()) == near * u);
        assert(y.magnitude() == w.magnitude());
        assert(y.negative() == x.negative());
        lemma_fundamental_div_mod_converse(near * u, u as int, near, 0);
    }
}

proof fn lemma_below_all_whole(c: nat)
    requires
        c < ALL_WHOLE,
    ensures
        units(c) as int / one_units() as int <= BINADE,
{
    lemma_power_positive(2, 1074);
    let k = (exponent(c) + 1074) as nat;
    assert(exponent(c) <= -1);
    assert(mantissa(c) <= 2 * BINADE);
    lemma_power_add(2, k, (1073 - k) as nat);
    lemma_power_positive(2, (1073 - k) as nat);
    let q = power(2, k);
    let b = power(2, (1073 - k) as nat);
    assert(power(2, 1074) == 2 * power(2, 1073));
    let u = one_units();
    let m = mantissa(c);
    assert(m * q <= BINADE * u) by (nonlinear_arith)
        requires
            m <= 2 * BINADE,
            u == 2 * (q * b),
            b >= 1,
            q >= 0,
    ;
    let d = units(c) as int / u as int;
    vstd::arithmetic::div_mod::lemma_fundamental_div_mod(units(c) as int, u as int);
    vstd::arithmetic::div_mod::lemma_mod_bound(units(c) as int, u as int);
    assert(d <= BINADE) by (nonlinear_arith)
        requires
            u * d <= BINADE * u,
            u > 0,
    ;
}

/// A larger magnitude has a larger value.
pub proof fn lemma_units_increase(a: nat, b: nat)
    requires
        a < b < INFINITE,
    ensures
        units(a) < units(b),
    decreases b - a,
{
    let p = (b - 1) as nat;
    let q = power(2, (exponent(p) + 1074) as nat);
    lemma_power_positive(2, (exponent(p) + 1074) as nat);
    let mp = mantissa(p);
    assert((mp + 1) * q == mp * q + q) by (nonlinear_arith);
    assert(units(b) == (mp + 1) * q) by {
        if exponent(b) != exponent(p) {
            assert(mantissa(b) == BINADE && mp == 2 * BINADE - 1);
            assert(exponent(b) == exponent(p) + 1);
            let j = (exponent(p) + 1074) as nat;
            assert(power(2, (j + 1) as nat) == 2 * q);
            assert(BINADE as nat * (2 * q) == (2 * BINADE as nat) * q) by (nonlinear_arith);
        } else {
            assert(mantissa(b) == mp + 1);
        }
    }
    if a < p {
        lemma_units_increase(a, p);
    }
}

/// The difference of two numbers that differ is above zero.
pub proof fn lemma_difference_positive(a: Double, b: Double)
    requires
        f_less(a, b),
    ensures
        f_sub(b, a).key() > 0,
        !f_sub(b, a).is_nan(),
{
    reveal(f_add);
    let n = f_neg(a);
    assert(n.magnitude() == a.magnitude());
    assert(n.negative() == !a.negative());
    if !a.is_infinite() && !b.is_infinite() {
        assert(exact(n) == -exact(a));
        let ca = a.magnitude();
        let cb = b.magnitude();
        assert(units(0) == 0) by {
            assert(0 * power(2, 0) == 0);
        }
        if ca > 0 {
            lemma_units_increase(0, ca);
        }
        if cb > 0 {
            lemma_units_increase(0, cb);
        }
        if a.negative() && b.negative() {
            lemma_units_increase(cb, ca);
        } else if !a.negative() && !b.negative() {
            lemma_units_increase(ca, cb);
        }
        let num = exact(b) + exact(n);
        assert(num > 0);
        lemma_power_positive(2, 1074);
        lemma_rounded_exists(num, one_units());
        let r = rounded(num, one_units());
        if r.magnitude() == 0 {
            let u = one_units();
            let p = power(2, 1075);
            assert(p == 2 * u);
            assert(exponent(0) - 1 == -1075);
            let m = 2 * mantissa(0) + 1;
            let q = power(2, at_least_zero(-1075));
            assert(m * q * u == u) by (nonlinear_arith)
                requires
                    m == 1,
                    q == 1,
            ;
            let t = num as nat;
            assert(t * p > u) by (nonlinear_arith)
                requires
                    t > 0,
                    p == 2 * u,
                    u > 0,
            ;
            assert(reaches(t, u, 1));
        }
    }
}

/// A quotient stays the same when both sides are taken `s` times.
pub proof fn lemma_rounded_scaled(num: int, den: nat, s: nat, x: Double)
    requires
        den > 0,
        s > 0,
        is_rounded(num, den, x),
    ensures
        rounded(num * s, den * s) == x,
{
    let n = abs(num);
    assert(abs(num * s) == n * s) by (nonlinear_arith)
        requires
            s > 0,
            n == (if num < 0 {
                -num
            } else {
                num
            }),
            abs(num * s) == (if num * s < 0 {
                -(num * s)
            } else {
                num * s
            }),
    ;
    assert((num * s < 0) == (num < 0)) by (nonlinear_arith)
        requires
            s > 0,
    ;
    assert(den * s > 0) by (nonlinear_arith)
        requires
            den > 0,
            s > 0,
    ;
    assert forall|c: nat| #[trigger] reaches(n, den, c) == reaches(n * s, den * s, c) by {
        if c > 0 {
            let m = 2 * mantissa((c - 1) as nat) + 1;
            let k = exponent((c - 1) as nat) - 1;
            let t = power(2, at_least_zero(-k));
            let z = m * power(2, at_least_zero(k));
            let l = n * t;
            let w = z * den;
            assert((n * s) * t == l * s) by (nonlinear_arith)
                requires
                    l == n * t,
            ;
            assert(z * (den * s) == w * s) by (nonlinear_arith)
                requires
                    w == z * den,
            ;
            assert((l > w) == (l * s > w * s)) by (nonlinear_arith)
                requires
                    s > 0,
            ;
            assert((l == w) == (l * s == w * s)) by (nonlinear_arith)
                requires
                    s > 0,
            ;
        }
    }
    assert(is_rounded(num * s, den * s, x));
    lemma_rounded(num * s, den * s, x);
}

/// Only the zeros have the value 0.
pub proof fn lemma_not_zero(x: Double)
    requires
        x.wf(),
        x.magnitude() > 0,
    ensures
        exact(x) != 0,
{
    lemma_units_positive(x.magnitude());
}

/// A number is nothing away from itself.
pub proof fn lemma_self_difference(a: Double)
    ensures
        a.wf() ==> f_sub(a, a).bits == 0,
        !a.wf() ==> f_sub(a, a).is_nan(),
{
    reveal(f_add);
    let n = f_neg(a);
    assert(n.magnitude() == a.magnitude());
    assert(n.negative() == !a.negative());
    if a.wf() {
        assert(exact(a) + exact(n) == 0);
    }
}

/// Taking a number -1 times gives the opposite number.
pub proof fn lemma_opposite(a: Double, minus_one: Double)
    requires
        a.wf(),
        minus_one.bits == 0xbff0_0000_0000_0000,
    ensures
        f_mul(a, minus_one) == f_neg(a),
{
    reveal(f_mul);
    let u = one_units();
    lemma_power_positive(2, 1074);
    let c = minus_one.magnitude();
    assert(c == 1023 * BINADE);
    assert(c / (BINADE as nat) == 1023 && c % (BINADE as nat) == 0) by {
        lemma_fundamental_div_mod_converse(c as int, BINADE as int, 1023, 0);
    }
    assert(mantissa(c) == BINADE);
    assert(exponent(c) == -52);
    assert(power(2, 52) == BINADE) by {
        lemma_power_add(2, 26, 26);
        reveal_with_fuel(power, 27);
    }
    lemma_power_add(2, 52, 1022);
    assert(exact(minus_one) == -u);
    let n = f_neg(a);
    assert(n.magnitude() == a.magnitude());
    assert(n.negative() == !a.negative());
    assert(exact(n) == -exact(a));
    if exact(a) != 0 {
        lemma_own_value(n.magnitude());
        assert(is_rounded(exact(n), u, n));
        lemma_rounded_scaled(exact(n), u, u, n);
    }
    let x = exact(a);
    assert(x * -u == -x * u) by (nonlinear_arith);
    assert(x * -u == 0 <==> x == 0) by (nonlinear_arith)
        requires
            u > 0,
    ;
    if a.magnitude() > 0 {
        lemma_not_zero(a);
    }
}

/// A whole number above zero stays above zero in the binary32 format.
pub proof fn lemma_narrow_positive(n: nat)
    requires
        n > 0,
    ensures
        f_narrow(whole(n)).key() > 0,
{
    lemma_rounded_exists(n as int, 1);
    let x = whole(n);
    let c = x.magnitude();
    let b: nat = 1023 * BINADE as nat;
    let p = (b - 1) as nat;
    assert(p / (BINADE as nat) == 1022 && p % (BINADE as nat) == BINADE - 1) by {
        lemma_fundamental_div_mod_converse(p as int, BINADE as int, 1022, BINADE - 1);
    }
    assert(mantissa(p) == 2 * BINADE - 1);
    assert(exponent(p) == -53);
    lemma_power_54();
    assert(reaches(n, 1, b)) by {
        let m = 2 * mantissa(p) + 1;
        assert(power(2, at_least_zero(-54)) == 1);
        assert(at_least_zero(54) == 54);
        let l = n * power(2, 54);
        assert(l >= 0x40_0000_0000_0000) by (nonlinear_arith)
            requires
                l == n * 0x40_0000_0000_0000,
                n >= 1,
        ;
        assert(m * 1 * 1 == m);
    }
    if c < b {
        lemma_reaches_all_below(n, 1, c + 1, b);
    }
    assert(c >= 0x3ff0_0000_0000_0000);
    let q = c / 0x2000_0000;
    assert(short_magnitude(c) >= q * 0x2000_0000);
    assert(short_magnitude(c) <= (q + 1) * 0x2000_0000);
    assert(q > 0);
}

/// The quotient. Dividing by zero gives an infinity, and NaN where both are zero.
pub open spec fn f_over(a: Double, b: Double) -> Double {
    if b.key() != 0 {
        f_div(a, b)
    } else if a.is_nan() || a.key() == 0 {
        nan()
    } else {
        infinity(a.negative() != b.negative())
    }
}

/// The quotient, also of a division by zero.
pub fn over(a: Double, b: Double) -> (r: Double)
    ensures
        r == f_over(a, b),
{
    let c: u64 = magnitude_of(b);
    if c != 0 {
        return divided(a, b);
    }
    let m: u64 = magnitude_of(a);
    if m > INFINITE || m == 0 {
        Double { bits: NOT_A_NUMBER }
    } else if (a.bits >= SIGN) != (b.bits >= SIGN) {
        Double { bits: INFINITE + SIGN }
    } else {
        Double { bits: INFINITE }
    }
}

/// `x` without its fraction, with its sign.
pub open spec fn f_trunc(x: Double) -> Double {
    if x.magnitude() >= ALL_WHOLE {
        x
    } else {
        let n = (units(x.magnitude()) as int / one_units() as int) as nat;
        negated_if(x.negative(), whole(n))
    }
}

/// `x` without its fraction.
pub fn whole_part(x: Double) -> (r: Double)
    ensures
        r == f_trunc(x),
{
    let c: u64 = magnitude_of(x);
    if c >= ALL_WHOLE {
        return x;
    }
    let p = parts(c);
    proof {
        lemma_below_all_whole(c as nat);
    }
    let w: u64 = match p.whole {
        Some(w) => w,
        None => 0,
    };
    if x.bits >= SIGN {
        negated(from_count(w))
    } else {
        from_count(w)
    }
}

} // verus!
