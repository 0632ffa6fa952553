//! How numbers relate whatever is rounded, and numbers that are whole multiples of a
//! power of two, whose sums, differences, halves and multiples are exact.
use vstd::arithmetic::div_mod::lemma_fundamental_div_mod_converse;
use crate::bignum::{lemma_power_add, lemma_power_monotone, lemma_power_positive, power};
use crate::double::{
    exponent, lemma_reaches_all_below, mantissa, reaches, units, Double, BINADE, INFINITE, SIGN,
};
use crate::float::{
    abs, exact, f_abs, f_add, f_at_most, f_div, f_less, f_max, f_min, f_mul, f_narrow, f_neg, f_sub,
    half, is_rounded, lemma_normal, lemma_own_value, lemma_rounded, lemma_rounded_exists,
    lemma_rounded_scaled, lemma_self_difference, lemma_units_increase, lemma_units_positive,
    lemma_whole, nan, one_units, rounded, short_magnitude, whole, zero, LEAST_NORMAL_SINGLE,
    SINGLE_LIMIT, TINY_SHIFT,
};
use vstd::prelude::*;

verus! {

/// The opposite number.
pub proof fn lemma_neg(a: Double)
    ensures
        f_neg(a).magnitude() == a.magnitude(),
        f_neg(a).negative() == !a.negative(),
        f_neg(f_neg(a)) == a,
        f_neg(a).key() == -a.key(),
        a.wf() ==> exact(f_neg(a)) == -exact(a),
{
}

/// Only the zeros have the value 0.
pub proof fn lemma_zero_value(a: Double)
    requires
        a.wf(),
    ensures
        exact(a) == 0 <==> a.magnitude() == 0,
        exact(a) == 0 <==> a.key() == 0,
        exact(a) > 0 <==> a.key() > 0,
        exact(a) < 0 <==> a.key() < 0,
{
    assert(units(0) == 0) by {
        assert(0 * power(2, 0) == 0);
    }
    if a.magnitude() > 0 {
        lemma_units_positive(a.magnitude());
    }
}

/// Numbers are ordered as their values are.
pub proof fn lemma_order(a: Double, b: Double)
    requires
        a.wf(),
        b.wf(),
    ensures
        f_less(a, b) == (exact(a) < exact(b)),
        f_at_most(a, b) == (exact(a) <= exact(b)),
        a.key() == b.key() <==> exact(a) == exact(b),
        a.key() < b.key() <==> exact(a) < exact(b),
        exact(f_max(a, b)) == if exact(a) <= exact(b) {
            exact(b)
        } else {
            exact(a)
        },
        exact(f_min(a, b)) == if exact(a) <= exact(b) {
            exact(a)
        } else {
            exact(b)
        },
{
    lemma_zero_value(a);
    lemma_zero_value(b);
    let x = a.magnitude();
    let y = b.magnitude();
    if x < y {
        lemma_units_increase(x, y);
    } else if y < x {
        lemma_units_increase(y, x);
    }
}

/// A sum does not depend on the order of its parts.
pub proof fn lemma_sum_commutes(a: Double, b: Double)
    ensures
        f_add(a, b) == f_add(b, a),
{
    reveal(f_add);
}

/// A product does not depend on the order of its parts.
pub proof fn lemma_product_commutes(a: Double, b: Double)
    ensures
        f_mul(a, b) == f_mul(b, a),
{
    reveal(f_mul);
    let x = exact(a);
    let y = exact(b);
    assert(x * y == y * x) by (nonlinear_arith);
}

/// What is below another quotient is not rounded above it.
pub proof fn lemma_rounding_keeps_order(m: int, n: int, den: nat)
    requires
        den > 0,
        m <= n,
    ensures
        rounded(m, den).key() <= rounded(n, den).key(),
        !rounded(m, den).is_nan(),
        !rounded(n, den).is_nan(),
{
    lemma_rounded_exists(m, den);
    lemma_rounded_exists(n, den);
    let r = rounded(m, den);
    let s = rounded(n, den);
    if 0 <= m {
        lemma_magnitudes_keep_order(abs(m), abs(n), den, r.magnitude(), s.magnitude());
    } else if n < 0 {
        lemma_magnitudes_keep_order(abs(n), abs(m), den, s.magnitude(), r.magnitude());
    }
}

proof fn lemma_magnitudes_keep_order(m: nat, n: nat, den: nat, c: nat, d: nat)
    requires
        den > 0,
        m <= n,
        c <= INFINITE,
        d <= INFINITE,
        reaches(m, den, c),
        d < INFINITE ==> !reaches(n, den, d + 1),
    ensures
        c <= d,
{
    if d < c {
        lemma_reaches_all_below(m, den, d + 1, c);
        let b = (d + 1) as nat;
        let t = power(2, crate::double::at_least_zero(-(exponent(d) - 1)));
        assert(m * t <= n * t) by (nonlinear_arith)
            requires
                m <= n,
                t >= 0,
        ;
        assert(reaches(n, den, b));
    }
}

/// The opposite quotient is rounded to the opposite number.
pub proof fn lemma_rounding_mirrors(n: int, den: nat)
    requires
        den > 0,
        n != 0,
    ensures
        rounded(-n, den) == f_neg(rounded(n, den)),
        rounded(n, den).negative() == (n < 0),
        rounded(n, den).magnitude() <= INFINITE,
{
    lemma_rounded_exists(n, den);
    let r = rounded(n, den);
    lemma_neg(r);
    assert(is_rounded(-n, den, f_neg(r)));
    lemma_rounded(-n, den, f_neg(r));
}

/// A finite number is rounded to itself.
pub proof fn lemma_value_stays(a: Double)
    requires
        a.wf(),
        exact(a) != 0,
    ensures
        rounded(exact(a), one_units()) == a,
{
    lemma_power_positive(2, 1074);
    lemma_zero_value(a);
    lemma_own_value(a.magnitude());
    lemma_rounded(exact(a), one_units(), a);
}

/// The sign of a product: it is negative where one side is.
pub proof fn lemma_product_sign(a: Double, b: Double)
    ensures
        !f_mul(a, b).is_nan() ==> f_mul(a, b).negative() == (a.negative() != b.negative()),
        a.wf() && b.wf() ==> !f_mul(a, b).is_nan(),
        f_mul(a, b).is_nan() ==> f_mul(a, b) == nan(),
{
    reveal(f_mul);
    lemma_power_positive(2, 1074);
    let u = one_units();
    assert(u * u > 0) by (nonlinear_arith)
        requires
            u > 0,
    ;
    if a.wf() && b.wf() {
        let x = exact(a);
        let y = exact(b);
        lemma_zero_value(a);
        lemma_zero_value(b);
        if x * y != 0 {
            lemma_rounding_mirrors(x * y, u * u);
            assert((x * y < 0) == ((x < 0) != (y < 0))) by (nonlinear_arith)
                requires
                    x * y != 0,
            ;
            assert(x != 0 && y != 0) by (nonlinear_arith)
                requires
                    x * y != 0,
            ;
        }
    }
}

/// The product with the opposite number is the opposite product.
pub proof fn lemma_product_mirrors(a: Double, b: Double)
    ensures
        f_mul(f_neg(a), b) == if f_mul(a, b).is_nan() {
            nan()
        } else {
            f_neg(f_mul(a, b))
        },
        f_mul(a, f_neg(b)) == f_mul(f_neg(a), b),
        f_mul(f_neg(a), f_neg(b)) == f_mul(a, b),
{
    reveal(f_mul);
    lemma_power_positive(2, 1074);
    let u = one_units();
    assert(u * u > 0) by (nonlinear_arith)
        requires
            u > 0,
    ;
    lemma_neg(a);
    lemma_neg(b);
    if a.wf() && b.wf() {
        let x = exact(a);
        let y = exact(b);
        assert((-x) * y == -(x * y)) by (nonlinear_arith);
        assert(x * (-y) == -(x * y)) by (nonlinear_arith);
        assert((-x) * (-y) == x * y) by (nonlinear_arith);
        if x * y != 0 {
            lemma_rounding_mirrors(x * y, u * u);
        }
    }
}

/// The sum of the opposite numbers is the opposite sum, but for the sign of a zero.
pub proof fn lemma_sum_mirrors(a: Double, b: Double)
    ensures
        f_add(a, b).is_nan() ==> f_add(f_neg(a), f_neg(b)).is_nan(),
        !f_add(a, b).is_nan() ==> f_add(f_neg(a), f_neg(b)).magnitude() == f_add(
            a,
            b,
        ).magnitude(),
        !f_add(a, b).is_nan() ==> f_add(f_neg(a), f_neg(b)).key() == -f_add(a, b).key(),
{
    reveal(f_add);
    lemma_power_positive(2, 1074);
    lemma_neg(a);
    lemma_neg(b);
    if a.wf() && b.wf() && exact(a) + exact(b) != 0 {
        lemma_rounding_mirrors(exact(a) + exact(b), one_units());
        lemma_neg(rounded(exact(a) + exact(b), one_units()));
    }
}

/// A difference taken the other way is the opposite one, but for the sign of a zero.
pub proof fn lemma_difference_mirrors(a: Double, b: Double)
    ensures
        f_sub(a, b).is_nan() == f_sub(b, a).is_nan(),
        !f_sub(a, b).is_nan() ==> f_sub(b, a).magnitude() == f_sub(a, b).magnitude(),
        !f_sub(a, b).is_nan() ==> f_sub(b, a).key() == -f_sub(a, b).key(),
{
    lemma_neg(a);
    lemma_neg(b);
    lemma_sum_mirrors(a, f_neg(b));
    lemma_sum_mirrors(b, f_neg(a));
    lemma_sum_commutes(f_neg(a), b);
    lemma_sum_commutes(f_neg(b), a);
}

/// Nothing is rounded to zero.
pub proof fn lemma_zero_rounds(den: nat)
    requires
        den > 0,
    ensures
        rounded(0, den) == zero(false),
{
    let z = zero(false);
    let m = 2 * mantissa(0) + 1;
    let k = exponent(0) - 1;
    let p = power(2, crate::double::at_least_zero(k));
    assert(p == 1);
    assert(m * p * den > 0) by (nonlinear_arith)
        requires
            m == 1,
            p == 1,
            den > 0,
    ;
    let t = power(2, crate::double::at_least_zero(-k));
    assert(0 * t == 0);
    assert(is_rounded(0, den, z));
    lemma_rounded(0, den, z);
}

/// The sum of finite numbers is the nearest number to the sum of their values.
pub proof fn lemma_sum_value(a: Double, b: Double)
    requires
        a.wf(),
        b.wf(),
    ensures
        f_add(a, b).key() == rounded(exact(a) + exact(b), one_units()).key(),
        f_add(a, b).magnitude() == rounded(exact(a) + exact(b), one_units()).magnitude(),
        !f_add(a, b).is_nan(),
{
    reveal(f_add);
    lemma_power_positive(2, 1074);
    lemma_zero_rounds(one_units());
    lemma_rounded_exists(exact(a) + exact(b), one_units());
}

/// The product of finite numbers is the nearest number to the product of their values.
pub proof fn lemma_product_value(a: Double, b: Double)
    requires
        a.wf(),
        b.wf(),
    ensures
        f_mul(a, b).key() == rounded(exact(a) * exact(b), one_units() * one_units()).key(),
        f_mul(a, b).magnitude() == rounded(
            exact(a) * exact(b),
            one_units() * one_units(),
        ).magnitude(),
        !f_mul(a, b).is_nan(),
        one_units() * one_units() > 0,
{
    reveal(f_mul);
    lemma_power_positive(2, 1074);
    let u = one_units();
    assert(u * u > 0) by (nonlinear_arith)
        requires
            u > 0,
    ;
    lemma_zero_rounds(u * u);
    lemma_rounded_exists(exact(a) * exact(b), u * u);
}

/// The larger part gives the larger sum.
pub proof fn lemma_sum_keeps_order(a: Double, b: Double, c: Double)
    requires
        a.wf(),
        b.wf(),
        c.wf(),
        a.key() <= b.key(),
    ensures
        f_add(a, c).key() <= f_add(b, c).key(),
        !f_add(a, c).is_nan(),
        !f_add(b, c).is_nan(),
{
    lemma_power_positive(2, 1074);
    lemma_order(a, b);
    lemma_sum_value(a, c);
    lemma_sum_value(b, c);
    lemma_rounding_keeps_order(exact(a) + exact(c), exact(b) + exact(c), one_units());
}

/// Adding what is not below zero does not make a number less.
pub proof fn lemma_sum_grows(a: Double, b: Double)
    requires
        a.wf(),
        b.wf(),
        b.key() >= 0,
    ensures
        f_add(a, b).key() >= a.key(),
        f_sub(a, b).key() <= a.key(),
        !f_add(a, b).is_nan(),
        !f_sub(a, b).is_nan(),
{
    lemma_power_positive(2, 1074);
    lemma_zero_value(a);
    lemma_zero_value(b);
    lemma_neg(b);
    let u = one_units();
    lemma_sum_value(a, b);
    lemma_sum_value(a, f_neg(b));
    lemma_rounding_keeps_order(exact(a), exact(a) + exact(b), u);
    lemma_rounding_keeps_order(exact(a) - exact(b), exact(a), u);
    if exact(a) != 0 {
        lemma_value_stays(a);
    } else {
        lemma_zero_rounds(u);
    }
}

/// The larger part gives the larger product with what is not below zero.
pub proof fn lemma_product_keeps_order(a: Double, b: Double, c: Double)
    requires
        a.wf(),
        b.wf(),
        c.wf(),
        a.key() <= b.key(),
        c.key() >= 0,
    ensures
        f_mul(a, c).key() <= f_mul(b, c).key(),
{
    lemma_order(a, b);
    lemma_zero_value(c);
    lemma_product_value(a, c);
    lemma_product_value(b, c);
    let x = exact(a);
    let y = exact(b);
    let z = exact(c);
    assert(x * z <= y * z) by (nonlinear_arith)
        requires
            x <= y,
            z >= 0,
    ;
    lemma_rounding_keeps_order(x * z, y * z, one_units() * one_units());
}

/// `x` is `n` times the step `2^j`, in units of the least positive number.
pub open spec fn is_multiple(x: Double, j: nat, n: int) -> bool {
    x.wf() && exact(x) == n * power(2, j)
}

/// How many steps `2^j` the number `x` is from zero.
pub open spec fn steps(x: Double, j: nat) -> int {
    exact(x) / power(2, j) as int
}

/// `x` is a whole number of steps `2^j`, at most `2^30` of them from zero. With the step
/// `2^-10` these are the coordinates up to a million, to a thousandth.
pub open spec fn is_plain(x: Double, j: nat) -> bool {
    &&& 1 <= j <= 2000
    &&& is_multiple(x, j, steps(x, j))
    &&& -0x4000_0000 <= steps(x, j) <= 0x4000_0000
}

pub proof fn lemma_steps(x: Double, j: nat, n: int)
    requires
        is_multiple(x, j, n),
    ensures
        steps(x, j) == n,
{
    lemma_power_positive(2, j);
    let p = power(2, j) as int;
    lemma_fundamental_div_mod_converse(exact(x), p, n, 0);
}

/// There is a number with every value of fewer than `2^53` steps.
proof fn lemma_held(n: nat, j: nat) -> (c: nat)
    requires
        0 < n < 2 * BINADE,
        j <= 2040,
    ensures
        c < INFINITE,
        units(c) == n * power(2, j),
{
    assert(n * power(2, 0) == n) by (nonlinear_arith)
        requires
            power(2, 0) == 1,
    ;
    let s = lemma_normal(n, 0);
    let p = power(2, s);
    let m = n * p;
    if s <= j {
        let c = ((j - s) * BINADE + m) as nat;
        assert(c % (BINADE as nat) == m - BINADE && c / (BINADE as nat) == j - s + 1) by {
            lemma_fundamental_div_mod_converse(c as int, BINADE as int, j - s + 1, m - BINADE);
        }
        assert(c >= BINADE) by (nonlinear_arith)
            requires
                c == (j - s) * BINADE + m,
                j >= s,
                m >= BINADE,
        ;
        assert(c < INFINITE) by (nonlinear_arith)
            requires
                c == (j - s) * BINADE + m,
                j - s <= 2040,
                m < 2 * BINADE,
                BINADE == 0x10_0000_0000_0000,
                INFINITE == 0x7ff0_0000_0000_0000,
        ;
        assert(mantissa(c) == m);
        assert(exponent(c) == j - s - 1074);
        lemma_power_add(2, s, (j - s) as nat);
        let q = power(2, (j - s) as nat);
        assert((n * p) * q == n * (p * q)) by (nonlinear_arith);
        c
    } else {
        let c = n * power(2, j);
        lemma_power_add(2, j, (s - j) as nat);
        let q = power(2, j);
        let t = power(2, (s - j - 1) as nat);
        lemma_power_positive(2, (s - j - 1) as nat);
        assert(power(2, (s - j) as nat) == 2 * t);
        assert(2 * c <= m) by (nonlinear_arith)
            requires
                c == n * q,
                m == n * p,
                p == q * (2 * t),
                t >= 1,
                n >= 0,
                q >= 0,
        ;
        assert(c < BINADE);
        assert(mantissa(c) == c && exponent(c) == -1074);
        assert(units(c) == c * power(2, 0));
        c
    }
}

/// Fewer than `2^53` steps are rounded to their own value.
pub proof fn lemma_multiple_rounds(n: int, j: nat)
    requires
        -2 * BINADE < n < 2 * BINADE,
        j <= 2040,
    ensures
        is_multiple(rounded(n * power(2, j), one_units()), j, n),
{
    lemma_power_positive(2, 1074);
    let u = one_units();
    let p = power(2, j);
    lemma_power_positive(2, j);
    if n == 0 {
        assert(0 * p == 0);
        lemma_zero_rounds(u);
        lemma_zero_value(zero(false));
    } else {
        let m = abs(n);
        let c = lemma_held(m, j);
        let x = (Double {
            bits: (c + if n < 0 {
                SIGN as nat
            } else {
                0
            }) as u64,
        });
        assert(x.magnitude() == c);
        assert(n < 0 ==> n * p == -(m * p)) by (nonlinear_arith)
            requires
                n < 0 ==> m == -n,
        ;
        assert(n * p != 0 && (n * p < 0) == (n < 0)) by (nonlinear_arith)
            requires
                n != 0,
                p > 0,
        ;
        assert(exact(x) == n * p);
        lemma_value_stays(x);
    }
}

/// The sum of steps is exact.
pub proof fn lemma_sum_of_steps(a: Double, b: Double, j: nat, m: int, n: int)
    requires
        is_multiple(a, j, m),
        is_multiple(b, j, n),
        -2 * BINADE < m + n < 2 * BINADE,
        j <= 2040,
    ensures
        is_multiple(f_add(a, b), j, m + n),
{
    let p = power(2, j);
    assert(m * p + n * p == (m + n) * p) by (nonlinear_arith);
    lemma_multiple_rounds(m + n, j);
    lemma_sum_value(a, b);
    lemma_same_value(f_add(a, b), rounded((m + n) * p, one_units()));
}

/// Numbers with one key have one value.
pub proof fn lemma_same_value(a: Double, b: Double)
    requires
        b.wf(),
        a.key() == b.key(),
    ensures
        a.wf(),
        exact(a) == exact(b),
{
    lemma_zero_value(b);
    lemma_zero_value(a);
}

/// The difference of steps is exact.
pub proof fn lemma_difference_of_steps(a: Double, b: Double, j: nat, m: int, n: int)
    requires
        is_multiple(a, j, m),
        is_multiple(b, j, n),
        -2 * BINADE < m - n < 2 * BINADE,
        j <= 2040,
    ensures
        is_multiple(f_sub(a, b), j, m - n),
{
    lemma_neg(b);
    let p = power(2, j);
    assert(-(n * p) == (-n) * p) by (nonlinear_arith);
    lemma_sum_of_steps(a, f_neg(b), j, m, -n);
}

/// A step is two of the next smaller ones.
pub proof fn lemma_finer(a: Double, j: nat, n: int)
    requires
        is_multiple(a, j, n),
        j >= 1,
    ensures
        is_multiple(a, (j - 1) as nat, 2 * n),
{
    let q = power(2, (j - 1) as nat);
    assert(power(2, j) == 2 * q);
    assert(n * (2 * q) == (2 * n) * q) by (nonlinear_arith);
}

/// Half of an even number of steps is exact.
pub proof fn lemma_half_of_steps(a: Double, j: nat, n: int)
    requires
        is_multiple(a, j, 2 * n),
        -2 * BINADE < n < 2 * BINADE,
        j <= 2040,
    ensures
        is_multiple(half(a), j, n),
{
    reveal(f_div);
    lemma_whole(2);
    lemma_power_positive(2, 1074);
    let u = one_units();
    let p = power(2, j);
    let v = n * p;
    assert((2 * n) * p == 2 * v) by (nonlinear_arith)
        requires
            v == n * p,
    ;
    lemma_multiple_rounds(n, j);
    if exact(a) == 0 {
        assert(v == 0);
        lemma_zero_value(zero(false));
        lemma_zero_value(zero(true));
        lemma_same_value(zero(true), zero(false));
    } else {
        lemma_rounded_exists(v, u);
        lemma_rounded_scaled(v, u, 2, rounded(v, u));
        assert(v * 2 == exact(a));
        assert(u * 2 == 2 * u);
        assert(abs(exact(whole(2))) == 2 * u);
    }
}

/// A whole number of times of steps is exact.
pub proof fn lemma_times_steps(k: nat, a: Double, j: nat, n: int)
    requires
        is_multiple(a, j, n),
        k < 2 * BINADE,
        -2 * BINADE < k * n < 2 * BINADE,
        j <= 2040,
    ensures
        is_multiple(f_mul(whole(k), a), j, k * n),
        is_multiple(f_mul(a, whole(k)), j, k * n),
{
    lemma_whole(k);
    lemma_product_commutes(a, whole(k));
    lemma_power_positive(2, 1074);
    let u = one_units();
    let p = power(2, j);
    let v = (k * n) * p;
    let x = whole(k);
    lemma_product_value(x, a);
    lemma_multiple_rounds(k * n, j);
    assert((k * u) * (n * p) == v * u) by (nonlinear_arith)
        requires
            v == (k * n) * p,
    ;
    lemma_rounded_exists(v, u);
    lemma_rounded_scaled(v, u, u, rounded(v, u));
    lemma_same_value(f_mul(x, a), rounded(v, u));
}


/// The number one.
pub proof fn lemma_one()
    ensures
        whole(1).bits == 0x3ff0_0000_0000_0000,
        exact(whole(1)) == one_units(),
{
    let x = (Double { bits: 0x3ff0_0000_0000_0000 });
    let c = x.magnitude();
    assert(c == 1023 * BINADE);
    assert(c / (BINADE as nat) == 1023 && c % (BINADE as nat) == 0) by {
        lemma_fundamental_div_mod_converse(c as int, BINADE as int, 1023, 0);
    }
    assert(power(2, 52) == BINADE) by {
        lemma_power_add(2, 26, 26);
        reveal_with_fuel(power, 27);
    }
    lemma_power_add(2, 52, 1022);
    assert(exact(x) == one_units());
    lemma_power_positive(2, 1074);
    lemma_value_stays(x);
    lemma_whole(1);
    assert(1 * one_units() == one_units());
}


/// The next place of a row that is not full stands in the next column of the same row.
pub proof fn lemma_next_column(i: nat, columns: nat)
    requires
        columns > 0,
        (i + 1) % columns != 0,
    ensures
        (i + 1) % columns == i % columns + 1,
        (i + 1) / columns == i / columns,
{
    let q = (i + 1) as int / columns as int;
    let m = (i + 1) as int % columns as int;
    vstd::arithmetic::div_mod::lemma_fundamental_div_mod((i + 1) as int, columns as int);
    vstd::arithmetic::div_mod::lemma_mod_bound((i + 1) as int, columns as int);
    assert(i == q * columns + (m - 1)) by (nonlinear_arith)
        requires
            i + 1 == columns * q + m,
    ;
    lemma_fundamental_div_mod_converse(i as int, columns as int, q, m - 1);
}

/// So many places on as there are columns is the same column of the next row.
pub proof fn lemma_next_row(i: nat, columns: nat)
    requires
        columns > 0,
    ensures
        (i + columns) % columns == i % columns,
        (i + columns) / columns == i / columns + 1,
{
    let q = i as int / columns as int;
    let m = i as int % columns as int;
    vstd::arithmetic::div_mod::lemma_fundamental_div_mod(i as int, columns as int);
    vstd::arithmetic::div_mod::lemma_mod_bound(i as int, columns as int);
    assert(i + columns == (q + 1) * columns + m) by (nonlinear_arith)
        requires
            i == columns * q + m,
    ;
    lemma_fundamental_div_mod_converse((i + columns) as int, columns as int, q + 1, m);
}

/// The column and the row of a place are not beyond it.
pub proof fn lemma_place_bounds(i: nat, columns: nat)
    requires
        columns > 0,
    ensures
        i % columns <= i,
        i / columns <= i,
{
    vstd::arithmetic::div_mod::lemma_fundamental_div_mod(i as int, columns as int);
    vstd::arithmetic::div_mod::lemma_mod_bound(i as int, columns as int);
    let q = i as int / columns as int;
    vstd::arithmetic::div_mod::lemma_div_pos_is_pos(i as int, columns as int);
    let m = i as int % columns as int;
    assert(q <= i && m <= i) by (nonlinear_arith)
        requires
            i == columns * q + m,
            columns >= 1,
            q >= 0,
            m >= 0,
    ;
}

/// Where the cell `k` of a row starts whose first one starts at `start`.
pub proof fn lemma_cell_start(start: Double, k: nat, cell: Double, gap: Double, j: nat)
    requires
        is_plain(start, j),
        is_plain(cell, j),
        is_plain(gap, j),
        k <= 0x10_0000,
    ensures
        ({
            let r = f_add(start, f_mul(whole(k), f_add(cell, gap)));
            &&& r.wf()
            &&& exact(r) == exact(start) + k * (exact(cell) + exact(gap))
            &&& is_multiple(r, j, steps(start, j) + k * (steps(cell, j) + steps(gap, j)))
        }),
{
    let p = power(2, j);
    let a = steps(start, j);
    let c = steps(cell, j);
    let g = steps(gap, j);
    lemma_sum_of_steps(cell, gap, j, c, g);
    let kk = k as int;
    let d = c + g;
    assert(-0x10_0000 * 0x8000_0000 <= kk * d <= 0x10_0000 * 0x8000_0000) by (nonlinear_arith)
        requires
            0 <= kk <= 0x10_0000,
            -0x8000_0000 <= d <= 0x8000_0000,
    ;
    lemma_times_steps(k, f_add(cell, gap), j, d);
    lemma_sum_of_steps(start, f_mul(whole(k), f_add(cell, gap)), j, a, kk * d);
    assert((a + kk * d) * p == a * p + kk * (c * p + g * p)) by (nonlinear_arith)
        requires
            d == c + g,
    ;
}

/// Where something of the size `w` starts in the middle of the cell `k` of a row.
pub proof fn lemma_middle_of_cell(
    start: Double,
    k: nat,
    cell: Double,
    gap: Double,
    w: Double,
    j: nat,
)
    requires
        is_plain(start, j),
        is_plain(cell, j),
        is_plain(gap, j),
        is_multiple(w, j, steps(w, j)),
        -0x8000_0000 <= steps(w, j) <= 0x8000_0000,
        k <= 0x10_0000,
    ensures
        ({
            let r = f_add(
                f_add(start, f_mul(whole(k), f_add(cell, gap))),
                half(f_sub(cell, w)),
            );
            &&& r.wf()
            &&& 2 * exact(r) + exact(w) == 2 * exact(start) + 2 * (k * (exact(cell) + exact(gap)))
                + exact(cell)
        }),
{
    let x = f_add(start, f_mul(whole(k), f_add(cell, gap)));
    lemma_cell_start(start, k, cell, gap, j);
    let c = steps(cell, j);
    let n = steps(w, j);
    let i = (j - 1) as nat;
    let q = power(2, i);
    let p = power(2, j);
    assert(p == 2 * q);
    lemma_difference_of_steps(cell, w, j, c, n);
    lemma_finer(f_sub(cell, w), j, c - n);
    lemma_half_of_steps(f_sub(cell, w), i, c - n);
    let m = steps(start, j) + k * (c + steps(gap, j));
    let kk = k as int;
    let d = c + steps(gap, j);
    assert(-0x10_0000 * 0x8000_0000 <= kk * d <= 0x10_0000 * 0x8000_0000) by (nonlinear_arith)
        requires
            0 <= kk <= 0x10_0000,
            -0x8000_0000 <= d <= 0x8000_0000,
    ;
    lemma_finer(x, j, m);
    lemma_sum_of_steps(x, half(f_sub(cell, w)), i, 2 * m, c - n);
    assert(2 * ((2 * m + (c - n)) * q) + n * p == 2 * (m * p) + c * p) by (nonlinear_arith)
        requires
            p == 2 * q,
    ;
}


/// A share of steps that divide evenly is exact.
pub proof fn lemma_share_of_steps(a: Double, k: nat, j: nat, n: int)
    requires
        is_multiple(a, j, k * n),
        0 < k < 2 * BINADE,
        -2 * BINADE < n < 2 * BINADE,
        j <= 2040,
    ensures
        is_multiple(f_div(a, whole(k)), j, n),
{
    reveal(f_div);
    lemma_whole(k);
    lemma_power_positive(2, 1074);
    let u = one_units();
    let p = power(2, j);
    let v = n * p;
    lemma_power_positive(2, j);
    assert((k * n) * p == v * k) by (nonlinear_arith)
        requires
            v == n * p,
    ;
    lemma_multiple_rounds(n, j);
    if exact(a) == 0 {
        assert(v == 0) by (nonlinear_arith)
            requires
                v * k == 0,
                k > 0,
        ;
        lemma_zero_value(zero(false));
        lemma_same_value(zero(true), zero(false));
        lemma_same_value(zero(false), zero(false));
    } else {
        lemma_rounded_exists(v, u);
        lemma_rounded_scaled(v, u, k, rounded(v, u));
        assert(u * k == k * u) by (nonlinear_arith);
        assert(abs(exact(whole(k))) == k * u);
    }
}


/// Nothing times a number is nothing.
pub proof fn lemma_times_nothing(a: Double)
    requires
        a.wf(),
    ensures
        f_mul(a, whole(0)).key() == 0,
        f_mul(whole(0), a).key() == 0,
{
    lemma_whole(0);
    lemma_product_commutes(a, whole(0));
    reveal(f_mul);
    let x = exact(a);
    assert(x * 0 == 0);
}

/// Once a number is the number.
pub proof fn lemma_times_one(a: Double)
    requires
        a.wf(),
    ensures
        f_mul(a, whole(1)) == a,
        f_mul(whole(1), a) == a,
{
    lemma_one();
    lemma_power_positive(2, 1074);
    lemma_product_commutes(a, whole(1));
    lemma_zero_value(a);
    reveal(f_mul);
    let x = exact(a);
    let u = one_units();
    assert(x * u == 0 <==> x == 0) by (nonlinear_arith)
        requires
            u > 0,
    ;
    if x != 0 {
        lemma_value_stays(a);
        lemma_rounded_exists(x, u);
        lemma_rounded_scaled(x, u, u, a);
    }
}

/// A number and nothing is the number, but for the sign of a zero.
pub proof fn lemma_plus_nothing(a: Double, z: Double)
    requires
        a.wf(),
        z.key() == 0,
    ensures
        f_add(a, z).key() == a.key(),
        f_add(z, a).key() == a.key(),
        a.key() != 0 ==> f_add(a, z) == a,
        a.key() != 0 ==> f_add(z, a) == a,
{
    lemma_zero_value(a);
    lemma_zero_value(z);
    lemma_sum_commutes(a, z);
    reveal(f_add);
    if exact(a) != 0 {
        lemma_value_stays(a);
    }
}


/// The number whose bits are the exponent `e` and nothing else is a power of two.
pub proof fn lemma_two_to(x: Double, e: nat)
    requires
        x.bits == e * BINADE,
        0 < e <= 2040,
    ensures
        x.wf(),
        !x.negative(),
        exact(x) == power(2, e + 51),
        exact(x) > 0,
{
    let c = x.bits as nat;
    assert(c / (BINADE as nat) == e && c % (BINADE as nat) == 0) by {
        lemma_fundamental_div_mod_converse(c as int, BINADE as int, e as int, 0);
    }
    assert(c >= BINADE) by (nonlinear_arith)
        requires
            c == e * BINADE,
            e >= 1,
    ;
    assert(c < INFINITE) by (nonlinear_arith)
        requires
            c == e * BINADE,
            e <= 2040,
            BINADE == 0x10_0000_0000_0000,
            INFINITE == 0x7ff0_0000_0000_0000,
    ;
    assert(power(2, 52) == BINADE) by {
        lemma_power_add(2, 26, 26);
        reveal_with_fuel(power, 27);
    }
    lemma_power_add(2, 52, (e - 1) as nat);
    lemma_power_positive(2, e + 51);
    assert(52 + (e - 1) as nat == e + 51);
}

/// The next exponent stands for twice the number.
proof fn lemma_double(c: nat)
    requires
        BINADE <= c,
        c + BINADE < INFINITE,
    ensures
        units(c + BINADE as nat) == 2 * units(c),
{
    let b = BINADE as nat;
    let d = c + b;
    lemma_next_row(c, b);
    let q = power(2, (exponent(c) + 1074) as nat);
    assert(c / b >= 1) by {
        vstd::arithmetic::div_mod::lemma_fundamental_div_mod(c as int, b as int);
        vstd::arithmetic::div_mod::lemma_mod_bound(c as int, b as int);
        let k = c as int / b as int;
        assert(k >= 1) by (nonlinear_arith)
            requires
                c == b * k + c as int % b as int,
                c as int % b as int <= b - 1,
                c >= b,
                b > 0,
        ;
    }
    assert(power(2, (exponent(d) + 1074) as nat) == 2 * q);
    let m = mantissa(c);
    assert(m * (2 * q) == 2 * (m * q)) by (nonlinear_arith);
}

/// A number of the binary32 format is nowhere above what the number is at most.
pub proof fn lemma_short_bounds(x: Double, top: nat)
    requires
        x.magnitude() <= top,
        0x39f8_0000_0000_0000 <= top < SINGLE_LIMIT,
        top % 0x2000_0000 == 0,
    ensures
        f_narrow(x).magnitude() <= top,
        f_narrow(x).negative() == x.negative(),
{
    let m = x.magnitude();
    if m >= LEAST_NORMAL_SINGLE {
        let q = m / 0x2000_0000;
        assert(short_magnitude(m) <= (q + 1) * 0x2000_0000);
        if m == top {
            assert(short_magnitude(m) == m);
        } else {
            assert((q + 1) * 0x2000_0000 <= top) by {
                let t = top / 0x2000_0000;
                assert(top == t * 0x2000_0000);
                assert(q < t);
            }
        }
    } else {
        let s = (Double { bits: TINY_SHIFT });
        let a = f_abs(x);
        let two = (Double { bits: 0x39f8_0000_0000_0000 });
        assert(a.bits == m);
        lemma_double(TINY_SHIFT as nat);
        lemma_zero_value(two);
        lemma_power_positive(2, 1074);
        lemma_sum_keeps_order(a, s, s);
        lemma_sum_value(s, s);
        assert(exact(s) + exact(s) == exact(two));
        lemma_value_stays(two);
        let y = f_add(a, s);
        lemma_sum_commutes(a, s);
        lemma_sum_grows(s, a);
        assert(s.key() <= y.key() <= two.key());
        assert(y.wf() && !y.negative());
        lemma_sum_grows(y, s);
        lemma_order(s, y);
        lemma_neg(s);
        let t = f_sub(y, s);
        lemma_sum_value(y, f_neg(s));
        assert(!t.negative()) by {
            reveal(f_add);
            if exact(y) + exact(f_neg(s)) != 0 {
                lemma_rounding_mirrors(exact(y) + exact(f_neg(s)), one_units());
            }
        }
        assert(t.magnitude() <= top);
        lemma_neg(t);
    }
}

/// A number of the binary32 format is nowhere below what the number is at least.
pub proof fn lemma_short_at_least(x: Double, low: nat)
    requires
        !x.is_nan(),
        x.magnitude() >= low,
        LEAST_NORMAL_SINGLE <= low <= INFINITE,
        low % 0x2000_0000 == 0,
    ensures
        f_narrow(x).magnitude() >= low,
        f_narrow(x).negative() == x.negative(),
        !f_narrow(x).is_nan(),
{
    let m = x.magnitude();
    let q = m / 0x2000_0000;
    assert(short_magnitude(m) >= q * 0x2000_0000);
    assert(short_magnitude(m) <= (q + 1) * 0x2000_0000);
    let t = low / 0x2000_0000;
    assert(low == t * 0x2000_0000);
    assert(q >= t);
}

/// Nothing is nothing in the binary32 format.
pub proof fn lemma_short_nothing()
    ensures
        f_narrow(Double { bits: 0 }) == (Double { bits: 0 }),
{
    let z = (Double { bits: 0 });
    let s = (Double { bits: TINY_SHIFT });
    lemma_zero_value(z);
    lemma_plus_nothing(s, z);
    lemma_self_difference(s);
    assert(f_abs(z) == z);
}

/// A number of the binary32 format stays as it is.
pub proof fn lemma_short_stays(x: Double)
    requires
        LEAST_NORMAL_SINGLE <= x.magnitude() <= 0x3ff0_0000_0000_0000,
    ensures
        f_narrow(f_narrow(x)) == f_narrow(x),
{
    let m = x.magnitude();
    lemma_short_bounds(x, 0x3ff0_0000_0000_0000);
    lemma_short_at_least(x, LEAST_NORMAL_SINGLE as nat);
    let n = short_magnitude(m);
    assert(n % 0x2000_0000 == 0);
    assert(short_magnitude(n) == n);
}


/// `x` is a whole number of steps `2^j`, at most `most` of them from zero.
pub open spec fn within(x: Double, j: nat, most: int) -> bool {
    &&& j <= 2000
    &&& is_multiple(x, j, steps(x, j))
    &&& -most <= steps(x, j) <= most
}

pub proof fn lemma_plain(x: Double, j: nat)
    requires
        is_plain(x, j),
    ensures
        within(x, j, 0x4000_0000),
        within(x, (j - 1) as nat, 0x8000_0000),
{
    lemma_in_halves(x, j, 0x4000_0000);
}

pub proof fn lemma_in_halves(x: Double, j: nat, m: int)
    requires
        within(x, j, m),
        j >= 1,
    ensures
        within(x, (j - 1) as nat, 2 * m),
{
    lemma_finer(x, j, steps(x, j));
    lemma_steps(x, (j - 1) as nat, 2 * steps(x, j));
}

pub proof fn lemma_add(a: Double, b: Double, j: nat, m: int, n: int)
    requires
        within(a, j, m),
        within(b, j, n),
        m + n < 2 * BINADE,
    ensures
        within(f_add(a, b), j, m + n),
        exact(f_add(a, b)) == exact(a) + exact(b),
{
    let x = steps(a, j);
    let y = steps(b, j);
    let p = power(2, j);
    lemma_sum_of_steps(a, b, j, x, y);
    lemma_steps(f_add(a, b), j, x + y);
    assert((x + y) * p == x * p + y * p) by (nonlinear_arith);
}

pub proof fn lemma_sub(a: Double, b: Double, j: nat, m: int, n: int)
    requires
        within(a, j, m),
        within(b, j, n),
        m + n < 2 * BINADE,
    ensures
        within(f_sub(a, b), j, m + n),
        exact(f_sub(a, b)) == exact(a) - exact(b),
{
    let x = steps(a, j);
    let y = steps(b, j);
    let p = power(2, j);
    lemma_difference_of_steps(a, b, j, x, y);
    lemma_steps(f_sub(a, b), j, x - y);
    assert((x - y) * p == x * p - y * p) by (nonlinear_arith);
}

pub proof fn lemma_half(a: Double, j: nat, m: int)
    requires
        within(a, j, m),
        j >= 1,
        m < 2 * BINADE,
    ensures
        within(half(a), (j - 1) as nat, m),
        2 * exact(half(a)) == exact(a),
{
    let x = steps(a, j);
    let i = (j - 1) as nat;
    let q = power(2, i);
    let p = power(2, j);
    assert(p == 2 * q);
    lemma_finer(a, j, x);
    lemma_half_of_steps(a, i, x);
    lemma_steps(half(a), i, x);
    assert(2 * (x * q) == x * p) by (nonlinear_arith)
        requires
            p == 2 * q,
    ;
}

pub proof fn lemma_times(k: nat, a: Double, j: nat, m: int)
    requires
        within(a, j, m),
        m >= 0,
        k < 2 * BINADE,
        k * m < 2 * BINADE,
    ensures
        within(f_mul(whole(k), a), j, k * m),
        within(f_mul(a, whole(k)), j, k * m),
        exact(f_mul(whole(k), a)) == k * exact(a),
        exact(f_mul(a, whole(k))) == k * exact(a),
{
    let x = steps(a, j);
    let p = power(2, j);
    let kk = k as int;
    assert(-(kk * m) <= kk * x <= kk * m) by (nonlinear_arith)
        requires
            -m <= x <= m,
            kk >= 0,
    ;
    lemma_times_steps(k, a, j, x);
    lemma_steps(f_mul(whole(k), a), j, kk * x);
    lemma_steps(f_mul(a, whole(k)), j, kk * x);
    assert((kk * x) * p == kk * (x * p)) by (nonlinear_arith);
}

/// A whole number is as many units of one; up to 2 to the power 21 it can be added wherever
/// one is at most 1024 steps.
pub proof fn lemma_whole_within(n: nat, j: nat)
    requires
        n <= 0x20_0000,
        1064 <= j <= 1074,
    ensures
        within(whole(n), j, 0x400 * n as int),
        exact(whole(n)) == n * one_units(),
{
    lemma_whole(n);
    let k = (1074 - j) as nat;
    lemma_power_add(2, k, j);
    lemma_power_positive(2, k);
    lemma_power_monotone(2, k, 10);
    assert(power(2, 10) == 0x400) by {
        reveal_with_fuel(power, 11);
    }
    let p = power(2, k);
    let q = power(2, j);
    let w = n * p;
    assert(n * (p * q) == w * q) by (nonlinear_arith)
        requires
            w == n * p,
    ;
    lemma_steps(whole(n), j, w as int);
    assert(0 <= w <= 0x400 * n) by (nonlinear_arith)
        requires
            w == n * p,
            p <= 0x400,
            n >= 0,
    ;
}


/// Nothing stays nothing in the binary32 format, whatever its sign.
pub proof fn lemma_short_zero(z: Double)
    requires
        z.key() == 0,
    ensures
        f_narrow(z).key() == 0,
{
    lemma_short_nothing();
    lemma_zero_value(z);
    let zero = (Double { bits: 0 });
    assert(z.magnitude() == 0);
    assert(f_abs(z) == zero);
    assert(f_abs(zero) == zero);
}

/// A number of the binary32 format stays where nothing is added to it.
pub proof fn lemma_short_plus_nothing(a: Double, z: Double)
    requires
        a.wf(),
        f_narrow(a) == a,
        z.key() == 0,
    ensures
        f_narrow(f_add(a, z)).key() == a.key(),
        f_narrow(f_add(z, a)).key() == a.key(),
{
    lemma_plus_nothing(a, z);
    if a.key() == 0 {
        lemma_short_zero(f_add(a, z));
        lemma_short_zero(f_add(z, a));
    }
}

/// Nothing times a number is nothing.
pub proof fn lemma_nothing_times(z: Double, a: Double)
    requires
        z.key() == 0,
        a.wf(),
    ensures
        f_mul(z, a).key() == 0,
        f_mul(a, z).key() == 0,
{
    lemma_zero_value(z);
    reveal(f_mul);
    let x = exact(a);
    assert(0 * x == 0 && x * 0 == 0);
}


/// Multiplying by one half is halving.
pub proof fn lemma_times_half(a: Double, j: nat, m: int)
    requires
        within(a, j, m),
        1 <= j <= 2000,
        0 <= m < 2 * BINADE,
    ensures
        within(f_mul(Double { bits: 0x3fe0_0000_0000_0000 }, a), (j - 1) as nat, m),
        within(f_mul(a, Double { bits: 0x3fe0_0000_0000_0000 }), (j - 1) as nat, m),
        2 * exact(f_mul(Double { bits: 0x3fe0_0000_0000_0000 }, a)) == exact(a),
        2 * exact(f_mul(a, Double { bits: 0x3fe0_0000_0000_0000 })) == exact(a),
{
    let h = (Double { bits: 0x3fe0_0000_0000_0000 });
    lemma_two_to(h, 1022);
    lemma_product_commutes(a, h);
    lemma_product_value(a, h);
    let n = steps(a, j);
    let i = (j - 1) as nat;
    let p = power(2, i);
    let u = one_units();
    lemma_power_positive(2, 1074);
    lemma_power_positive(2, i);
    assert(power(2, j) == 2 * p);
    assert(power(2, 1074) == 2 * power(2, 1073));
    let q = exact(h);
    assert(2 * q == u);
    let v = n * p;
    assert(exact(a) == 2 * v) by (nonlinear_arith)
        requires
            exact(a) == n * (2 * p),
            v == n * p,
    ;
    lemma_multiple_rounds(n, i);
    lemma_rounded_exists(v, u);
    lemma_rounded_scaled(v, u, u, rounded(v, u));
    assert(exact(a) * q == v * u) by (nonlinear_arith)
        requires
            exact(a) == 2 * v,
            2 * q == u,
    ;
    let r = f_mul(a, h);
    lemma_same_value(r, rounded(v, u));
    lemma_steps(r, i, n);
}

} // verus!
