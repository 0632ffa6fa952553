//! Natural numbers of any size, as 32-bit limbs with the lowest first.
use vstd::arithmetic::div_mod::{
    lemma_div_denominator, lemma_fundamental_div_mod, lemma_mod_multiples_vanish, lemma_small_mod,
};
use vstd::prelude::*;

verus! {

/// `b` to the power `n`.
pub open spec fn power(b: nat, n: nat) -> nat
    decreases n,
{
    if n == 0 {
        1
    } else {
        b * power(b, (n - 1) as nat)
    }
}

pub proof fn lemma_power_positive(b: nat, n: nat)
    requires
        b > 0,
    ensures
        power(b, n) > 0,
    decreases n,
{
    if n > 0 {
        lemma_power_positive(b, (n - 1) as nat);
        let p = power(b, (n - 1) as nat);
        assert(b * p > 0) by (nonlinear_arith)
            requires
                b > 0,
                p > 0,
        ;
    }
}

pub proof fn lemma_power_add(b: nat, m: nat, n: nat)
    ensures
        power(b, m + n) == power(b, m) * power(b, n),
    decreases m,
{
    if m > 0 {
        lemma_power_add(b, (m - 1) as nat, n);
        let p = power(b, (m - 1) as nat);
        let q = power(b, n);
        assert((m + n - 1) as nat == (m - 1) as nat + n);
        assert(b * (p * q) == (b * p) * q) by (nonlinear_arith);
    } else {
        assert(1 * power(b, n) == power(b, n));
    }
}

pub proof fn lemma_power_monotone(b: nat, m: nat, n: nat)
    requires
        b > 0,
        m <= n,
    ensures
        power(b, m) <= power(b, n),
{
    lemma_power_add(b, m, (n - m) as nat);
    lemma_power_positive(b, (n - m) as nat);
    let p = power(b, m);
    let q = power(b, (n - m) as nat);
    assert(p <= p * q) by (nonlinear_arith)
        requires
            q >= 1,
            p >= 0,
    ;
}

/// The number of the limbs `s`.
pub open spec fn limbs_value(s: Seq<u32>) -> nat
    decreases s.len(),
{
    if s.len() == 0 {
        0
    } else {
        s[0] as nat + 0x1_0000_0000 * limbs_value(s.skip(1))
    }
}

proof fn lemma_limbs_push(s: Seq<u32>, x: u32)
    ensures
        limbs_value(s.push(x)) == limbs_value(s) + power(0x1_0000_0000, s.len()) * x,
    decreases s.len(),
{
    if s.len() == 0 {
        assert(s.push(x).skip(1) =~= Seq::<u32>::empty());
        assert(limbs_value(Seq::<u32>::empty()) == 0);
        assert(s.push(x)[0] == x);
        assert(power(0x1_0000_0000, 0) * x == x) by (nonlinear_arith)
            requires
                power(0x1_0000_0000, 0) == 1,
        ;
    } else {
        let r = s.skip(1);
        lemma_limbs_push(r, x);
        assert(s.push(x).skip(1) =~= r.push(x));
        let p = power(0x1_0000_0000, r.len());
        let v = limbs_value(r);
        assert(0x1_0000_0000 * (v + p * x) == 0x1_0000_0000 * v + (0x1_0000_0000 * p) * x)
            by (nonlinear_arith);
        assert(power(0x1_0000_0000, s.len()) == 0x1_0000_0000 * p);
    }
}

/// A natural number of any size.
pub struct Big {
    pub limbs: Vec<u32>,
}

impl View for Big {
    type V = nat;

    open spec fn view(&self) -> nat {
        limbs_value(self.limbs@)
    }
}

/// How two numbers stand to each other.
#[derive(Debug, Clone, Copy, PartialEq, Eq, Structural)]
pub enum Sides {
    Less,
    Same,
    More,
}

impl Big {
    pub fn zero() -> (r: Big)
        ensures
            r@ == 0,
    {
        Big { limbs: Vec::new() }
    }

    pub fn copy(&self) -> (r: Big)
        ensures
            r@ == self@,
    {
        let mut limbs: Vec<u32> = Vec::new();
        let mut i: usize = 0;
        while i < self.limbs.len()
            invariant
                i <= self.limbs.len(),
                limbs@ == self.limbs@.take(i as int),
            decreases self.limbs.len() - i,
        {
            assert(self.limbs@.take(i + 1) =~= self.limbs@.take(i as int).push(
                self.limbs@[i as int],
            ));
            limbs.push(self.limbs[i]);
            i += 1;
        }
        assert(self.limbs@.take(self.limbs@.len() as int) =~= self.limbs@);
        Big { limbs }
    }

    /// This number times `m`, plus `a`.
    pub fn scaled(&self, m: u32, a: u32) -> (r: Big)
        ensures
            r@ == self@ * m + a,
    {
        let mut out: Vec<u32> = Vec::new();
        let mut carry: u64 = a as u64;
        let mut i: usize = 0;
        proof {
            assert(self.limbs@.skip(0) =~= self.limbs@);
            assert(power(0x1_0000_0000, 0) == 1);
            let x = limbs_value(self.limbs@);
            assert(1 * (carry + m * x) == x * m + a) by (nonlinear_arith)
                requires
                    carry == a,
            ;
        }
        while i < self.limbs.len()
            invariant
                i <= self.limbs.len(),
                out@.len() == i,
                carry <= 0xffff_ffff,
                limbs_value(out@) + power(0x1_0000_0000, i as nat) * (carry + m * limbs_value(
                    self.limbs@.skip(i as int),
                )) == self@ * m + a,
            decreases self.limbs.len() - i,
        {
            let limb: u64 = self.limbs[i] as u64;
            assert(limb * m <= 0xffff_ffff * 0xffff_ffff) by (nonlinear_arith)
                requires
                    limb <= 0xffff_ffff,
                    m <= 0xffff_ffff,
            ;
            let total: u64 = limb * (m as u64) + carry;
            let low: u32 = (total % 0x1_0000_0000) as u32;
            let high: u64 = total / 0x1_0000_0000;
            proof {
                let rest = self.limbs@.skip(i as int);
                assert(rest.skip(1) =~= self.limbs@.skip(i + 1));
                assert(rest[0] == limb);
                let v = limbs_value(self.limbs@.skip(i + 1));
                let p = power(0x1_0000_0000, i as nat);
                lemma_limbs_push(out@, low);
                assert(power(0x1_0000_0000, (i + 1) as nat) == 0x1_0000_0000 * p);
                assert(p * (carry + m * (limb + 0x1_0000_0000 * v)) == p * low + (0x1_0000_0000
                    * p) * (high + m * v)) by (nonlinear_arith)
                    requires
                        limb * m + carry == low + 0x1_0000_0000 * high,
                ;
                assert(high <= 0xffff_ffff) by (nonlinear_arith)
                    requires
                        high == total / 0x1_0000_0000,
                        total <= 0xffff_ffff * 0xffff_ffff + 0xffff_ffff,
                ;
            }
            out.push(low);
            carry = high;
            i += 1;
        }
        proof {
            assert(self.limbs@.skip(i as int) =~= Seq::<u32>::empty());
            lemma_limbs_push(out@, carry as u32);
            let p = power(0x1_0000_0000, i as nat);
            assert(p * (carry + m * 0) == p * carry) by (nonlinear_arith);
        }
        out.push(carry as u32);
        Big { limbs: out }
    }

    /// This number times `b` to the power `n`.
    pub fn times_power(&self, b: u32, n: u128) -> (r: Big)
        ensures
            r@ == self@ * power(b as nat, n as nat),
    {
        let mut out = self.copy();
        let mut i: u128 = 0;
        assert(self@ * 1 == self@);
        while i < n
            invariant
                i <= n,
                out@ == self@ * power(b as nat, i as nat),
            decreases n - i,
        {
            let ghost before = out@;
            out = out.scaled(b, 0);
            i += 1;
            proof {
                let p = power(b as nat, (i - 1) as nat);
                let x = self@;
                assert((x * p) * b + 0 == x * (b * p)) by (nonlinear_arith);
            }
        }
        out
    }

    /// The sum of this number and `other`.
    pub fn plus(&self, other: &Big) -> (r: Big)
        ensures
            r@ == self@ + other@,
    {
        let mut out: Vec<u32> = Vec::new();
        let mut carry: u64 = 0;
        let mut i: usize = 0;
        let n: usize = if self.limbs.len() >= other.limbs.len() {
            self.limbs.len()
        } else {
            other.limbs.len()
        };
        proof {
            assert(self.limbs@.skip(0) =~= self.limbs@);
            assert(other.limbs@.skip(0) =~= other.limbs@);
            let x = self@ + other@;
            assert(power(0x1_0000_0000, 0) * x == x) by (nonlinear_arith)
                requires
                    power(0x1_0000_0000, 0) == 1,
            ;
        }
        while i < n
            invariant
                i <= n,
                n >= self.limbs.len(),
                n >= other.limbs.len(),
                out@.len() == i,
                carry <= 1,
                limbs_value(out@) + power(0x1_0000_0000, i as nat) * (carry + limbs_from(
                    self.limbs@,
                    i as int,
                ) + limbs_from(other.limbs@, i as int)) == self@ + other@,
            decreases n - i,
        {
            let x: u64 = if i < self.limbs.len() {
                self.limbs[i] as u64
            } else {
                0
            };
            let y: u64 = if i < other.limbs.len() {
                other.limbs[i] as u64
            } else {
                0
            };
            let total: u64 = x + y + carry;
            let low: u32 = (total % 0x1_0000_0000) as u32;
            let high: u64 = total / 0x1_0000_0000;
            proof {
                lemma_limbs_from(self.limbs@, i as int);
                lemma_limbs_from(other.limbs@, i as int);
                let v = limbs_from(self.limbs@, i + 1);
                let w = limbs_from(other.limbs@, i + 1);
                let p = power(0x1_0000_0000, i as nat);
                lemma_limbs_push(out@, low);
                assert(power(0x1_0000_0000, (i + 1) as nat) == 0x1_0000_0000 * p);
                assert(p * (carry + (x + 0x1_0000_0000 * v) + (y + 0x1_0000_0000 * w)) == p * low
                    + (0x1_0000_0000 * p) * (high + v + w)) by (nonlinear_arith)
                    requires
                        x + y + carry == low + 0x1_0000_0000 * high,
                ;
            }
            out.push(low);
            carry = high;
            i += 1;
        }
        proof {
            lemma_limbs_push(out@, carry as u32);
            let p = power(0x1_0000_0000, i as nat);
            assert(limbs_from(self.limbs@, i as int) == 0);
            assert(limbs_from(other.limbs@, i as int) == 0);
        }
        out.push(carry as u32);
        Big { limbs: out }
    }

    /// This number times the number with the halves `high` and `low`.
    pub fn times_split(&self, high: u32, low: u32) -> (r: Big)
        ensures
            r@ == self@ * (high * 0x1_0000_0000 + low),
    {
        let upper = self.scaled(high, 0);
        let shifted = upper.scaled(0x1_0000, 0).scaled(0x1_0000, 0);
        let lower = self.scaled(low, 0);
        proof {
            let x = self@;
            assert((x * high * 0x1_0000) * 0x1_0000 + x * low == x * (high * 0x1_0000_0000 + low))
                by (nonlinear_arith);
        }
        shifted.plus(&lower)
    }

    /// This number times 2 to the power `n`.
    pub fn shifted(&self, n: u32) -> (r: Big)
        ensures
            r@ == self@ * power(2, n as nat),
    {
        let mut out = self.copy();
        let mut i: u32 = 0;
        assert(self@ * 1 == self@);
        while n - i >= 16
            invariant
                i <= n,
                out@ == self@ * power(2, i as nat),
            decreases n - i,
        {
            out = out.scaled(0x1_0000, 0);
            proof {
                lemma_power_add(2, i as nat, 16);
                reveal_with_fuel(power, 17);
                assert(power(2, 16) == 0x1_0000);
                let p = power(2, i as nat);
                let x = self@;
                assert((x * p) * 0x1_0000 == x * (p * 0x1_0000)) by (nonlinear_arith);
            }
            i += 16;
        }
        while i < n
            invariant
                i <= n,
                out@ == self@ * power(2, i as nat),
            decreases n - i,
        {
            out = out.scaled(2, 0);
            proof {
                let p = power(2, i as nat);
                let x = self@;
                assert((x * p) * 2 == x * (2 * p)) by (nonlinear_arith);
            }
            i += 1;
        }
        out
    }

    /// The difference of this number and `other`.
    pub fn minus(&self, other: &Big) -> (r: Big)
        requires
            other@ <= self@,
        ensures
            r@ == self@ - other@,
    {
        let mut out: Vec<u32> = Vec::new();
        let mut borrow: u64 = 0;
        let mut i: usize = 0;
        let n: usize = if self.limbs.len() >= other.limbs.len() {
            self.limbs.len()
        } else {
            other.limbs.len()
        };
        proof {
            assert(self.limbs@.skip(0) =~= self.limbs@);
            assert(other.limbs@.skip(0) =~= other.limbs@);
            assert(limbs_from(self.limbs@, 0) == self@);
            assert(limbs_from(other.limbs@, 0) == other@);
            let x = self@ - other@;
            assert(power(0x1_0000_0000, 0) * x == x) by (nonlinear_arith)
                requires
                    power(0x1_0000_0000, 0) == 1,
            ;
        }
        while i < n
            invariant
                i <= n,
                n >= self.limbs.len(),
                n >= other.limbs.len(),
                out@.len() == i,
                borrow <= 1,
                limbs_value(out@) + power(0x1_0000_0000, i as nat) * (limbs_from(
                    self.limbs@,
                    i as int,
                ) - limbs_from(other.limbs@, i as int) - borrow) == self@ - other@,
            decreases n - i,
        {
            let x: u64 = if i < self.limbs.len() {
                self.limbs[i] as u64
            } else {
                0
            };
            let y: u64 = if i < other.limbs.len() {
                other.limbs[i] as u64
            } else {
                0
            };
            let total: u64 = 0x1_0000_0000 + x - y - borrow;
            let low: u32 = (total % 0x1_0000_0000) as u32;
            let next: u64 = 1 - total / 0x1_0000_0000;
            proof {
                lemma_limbs_from(self.limbs@, i as int);
                lemma_limbs_from(other.limbs@, i as int);
                let v = limbs_from(self.limbs@, i + 1);
                let w = limbs_from(other.limbs@, i + 1);
                let p = power(0x1_0000_0000, i as nat);
                lemma_limbs_push(out@, low);
                assert(power(0x1_0000_0000, (i + 1) as nat) == 0x1_0000_0000 * p);
                assert(p * ((x + 0x1_0000_0000 * v) - (y + 0x1_0000_0000 * w) - borrow) == p * low
                    + (0x1_0000_0000 * p) * (v - w - next)) by (nonlinear_arith)
                    requires
                        x - y - borrow == low - 0x1_0000_0000 * next,
                ;
            }
            out.push(low);
            borrow = next;
            i += 1;
        }
        proof {
            let p = power(0x1_0000_0000, i as nat);
            lemma_below(out@);
            assert(limbs_from(self.limbs@, i as int) == 0);
            assert(limbs_from(other.limbs@, i as int) == 0);
            if borrow == 1 {
                assert(p * (0 - 0 - 1) == -p) by (nonlinear_arith);
                assert(limbs_value(out@) < p);
                assert(false);
            }
            assert(p * 0 == 0) by (nonlinear_arith);
        }
        Big { limbs: out }
    }

    /// Twice this number plus `bit`, reduced by `m`.
    fn step_remainder(&self, m: &Big, bit: u32) -> (r: Big)
        requires
            self@ < m@,
            bit <= 1,
        ensures
            r@ == (2 * self@ + bit) % m@ as int,
            r@ < m@,
    {
        let twice = self.scaled(2, bit);
        assert(twice@ == 2 * self@ + bit);
        match twice.sides(m) {
            Sides::Less => {
                proof {
                    lemma_small_mod(twice@, m@);
                }
                twice
            },
            _ => {
                let out = twice.minus(m);
                proof {
                    assert(out@ < m@);
                    lemma_mod_multiples_vanish(1, out@ as int, m@ as int);
                    assert(m@ * 1 + out@ == twice@);
                    lemma_small_mod(out@, m@);
                }
                out
            },
        }
    }

    /// What is left of this number when as many `m` as possible are taken away.
    pub fn remainder(&self, m: &Big) -> (r: Big)
        requires
            m@ > 0,
        ensures
            r@ == self@ % m@,
    {
        let mut out = Big::zero();
        let mut i: usize = self.limbs.len();
        proof {
            assert(self.limbs@.skip(i as int) =~= Seq::<u32>::empty());
            lemma_small_mod(0, m@);
        }
        while i > 0
            invariant
                i <= self.limbs.len(),
                m@ > 0,
                out@ < m@,
                out@ == limbs_value(self.limbs@.skip(i as int)) % m@,
            decreases i,
        {
            let limb: u32 = self.limbs[i - 1];
            let ghost p = limbs_value(self.limbs@.skip(i as int));
            let mut w: u64 = 0x1_0000_0000;
            let mut j: u32 = 0;
            proof {
                assert(limb as u64 / 0x1_0000_0000 == 0);
                assert(p * power(2, 0) + 0 == p) by (nonlinear_arith)
                    requires
                        power(2, 0) == 1,
                ;
                assert(w * power(2, 0) == 0x1_0000_0000) by (nonlinear_arith)
                    requires
                        power(2, 0) == 1,
                        w == 0x1_0000_0000,
                ;
            }
            while j < 32
                invariant
                    j <= 32,
                    m@ > 0,
                    w >= 1,
                    w <= 0x1_0000_0000,
                    w * power(2, j as nat) == 0x1_0000_0000,
                    j < 32 ==> w % 2 == 0,
                    out@ < m@,
                    out@ == (p * power(2, j as nat) + (limb as u64 / w)) % m@ as int,
                decreases 32 - j,
            {
                let half: u64 = w / 2;
                let bit: u32 = ((limb as u64 / half) % 2) as u32;
                let ghost before = out@;
                proof {
                    let pj = power(2, j as nat);
                    lemma_halves(j as nat, w as nat);
                    let x = p * pj + (limb as u64 / w);
                    let q = x / (m@ as int);
                    lemma_fundamental_div_mod(x, m@ as int);
                    assert(limb as u64 / half == 2 * (limb as u64 / w) + bit) by {
                        lemma_half_quotient(limb as nat, half as nat);
                    }
                    assert(power(2, (j + 1) as nat) == 2 * pj);
                    let y = p * (2 * pj) + (limb as u64 / half);
                    assert(y == 2 * x + bit) by (nonlinear_arith)
                        requires
                            y == p * (2 * pj) + (limb as u64 / half),
                            x == p * pj + (limb as u64 / w),
                            limb as u64 / half == 2 * (limb as u64 / w) + bit,
                    ;
                    assert(y == m@ * (2 * q) + (2 * before + bit)) by (nonlinear_arith)
                        requires
                            y == 2 * x + bit,
                            x == m@ * q + before,
                    ;
                    lemma_mod_multiples_vanish(2 * q, (2 * before + bit) as int, m@ as int);
                    assert(half * (2 * pj) == 0x1_0000_0000) by (nonlinear_arith)
                        requires
                            w * pj == 0x1_0000_0000,
                            w == 2 * half,
                    ;
                }
                out = out.step_remainder(m, bit);
                w = half;
                j += 1;
                proof {
                    if j < 32 {
                        lemma_halves(j as nat, w as nat);
                    }
                }
            }
            proof {
                assert(power(2, 32) == 0x1_0000_0000) by {
                    lemma_power_add(2, 16, 16);
                    reveal_with_fuel(power, 17);
                }
                assert(w == 1) by (nonlinear_arith)
                    requires
                        w * 0x1_0000_0000 == 0x1_0000_0000,
                ;
                let rest = self.limbs@.skip(i - 1);
                assert(rest.skip(1) =~= self.limbs@.skip(i as int));
                assert(rest[0] == limb);
                assert(limbs_value(rest) == p * 0x1_0000_0000 + limb);
            }
            i -= 1;
        }
        assert(self.limbs@.skip(0) =~= self.limbs@);
        out
    }

    /// The number without limbs that are zero at its top.
    fn top(&self) -> (r: usize)
        ensures
            r <= self.limbs.len(),
            limbs_value(self.limbs@.take(r as int)) == self@,
            r > 0 ==> self.limbs@[r - 1] > 0,
    {
        let mut n: usize = self.limbs.len();
        assert(self.limbs@.take(n as int) =~= self.limbs@);
        while n > 0 && self.limbs[n - 1] == 0
            invariant
                n <= self.limbs.len(),
                limbs_value(self.limbs@.take(n as int)) == self@,
            decreases n,
        {
            proof {
                let shorter = self.limbs@.take(n - 1);
                assert(self.limbs@.take(n as int) =~= shorter.push(0u32));
                lemma_limbs_push(shorter, 0u32);
                assert(power(0x1_0000_0000, shorter.len()) * 0 == 0);
            }
            n -= 1;
        }
        n
    }

    /// How this number stands to `other`.
    pub fn sides(&self, other: &Big) -> (r: Sides)
        ensures
            r == (if self@ < other@ {
                Sides::Less
            } else if self@ == other@ {
                Sides::Same
            } else {
                Sides::More
            }),
    {
        let m = self.top();
        let n = other.top();
        if m < n {
            proof {
                lemma_below(self.limbs@.take(m as int));
                lemma_top(other.limbs@.take(n as int));
                lemma_power_monotone(0x1_0000_0000, m as nat, (n - 1) as nat);
            }
            return Sides::Less;
        }
        if n < m {
            proof {
                lemma_below(other.limbs@.take(n as int));
                lemma_top(self.limbs@.take(m as int));
                lemma_power_monotone(0x1_0000_0000, n as nat, (m - 1) as nat);
            }
            return Sides::More;
        }
        let ghost a = self.limbs@.take(m as int);
        let ghost b = other.limbs@.take(m as int);
        let mut i: usize = m;
        assert(a.skip(m as int) =~= Seq::<u32>::empty());
        while i > 0
            invariant
                i <= m,
                m <= self.limbs.len(),
                m <= other.limbs.len(),
                a == self.limbs@.take(m as int),
                b == other.limbs@.take(m as int),
                limbs_value(a) == self@,
                limbs_value(b) == other@,
                a.skip(i as int) =~= b.skip(i as int),
            decreases i,
        {
            let x: u32 = self.limbs[i - 1];
            let y: u32 = other.limbs[i - 1];
            if x != y {
                proof {
                    lemma_split(a, (i - 1) as int);
                    lemma_split(b, (i - 1) as int);
                    lemma_below(a.take(i - 1));
                    lemma_below(b.take(i - 1));
                    assert(a.skip(i - 1).skip(1) =~= a.skip(i as int));
                    assert(b.skip(i - 1).skip(1) =~= b.skip(i as int));
                    let v = limbs_value(a.skip(i as int));
                    let p = power(0x1_0000_0000, (i - 1) as nat);
                    let la = limbs_value(a.take(i - 1));
                    let lb = limbs_value(b.take(i - 1));
                    if x < y {
                        assert(la + p * (x + 0x1_0000_0000 * v) < lb + p * (y + 0x1_0000_0000 * v))
                            by (nonlinear_arith)
                            requires
                                la < p,
                                lb >= 0,
                                x < y,
                        ;
                    } else {
                        assert(lb + p * (y + 0x1_0000_0000 * v) < la + p * (x + 0x1_0000_0000 * v))
                            by (nonlinear_arith)
                            requires
                                lb < p,
                                la >= 0,
                                y < x,
                        ;
                    }
                }
                return if x < y {
                    Sides::Less
                } else {
                    Sides::More
                };
            }
            proof {
                assert(a.skip(i - 1) =~= seq![x] + a.skip(i as int));
                assert(b.skip(i - 1) =~= seq![x] + b.skip(i as int));
            }
            i -= 1;
        }
        assert(a.skip(0) =~= a);
        assert(b.skip(0) =~= b);
        Sides::Same
    }
}

/// A power of two below the 32nd that, times another, gives the 32nd, is even.
proof fn lemma_halves(j: nat, w: nat)
    requires
        j < 32,
        w * power(2, j) == 0x1_0000_0000,
    ensures
        w % 2 == 0,
        w >= 2,
{
    let k = (31 - j) as nat;
    lemma_power_add(2, j, k + 1);
    assert(j + (k + 1) == 32);
    assert(power(2, 32) == 0x1_0000_0000) by {
        lemma_power_add(2, 16, 16);
        reveal_with_fuel(power, 17);
    }
    let a = power(2, j);
    let b = power(2, k + 1);
    lemma_power_positive(2, j);
    lemma_power_positive(2, k);
    assert(w == b) by (nonlinear_arith)
        requires
            w * a == a * b,
            a > 0,
    ;
    assert(b == 2 * power(2, k));
}

proof fn lemma_half_quotient(x: nat, half: nat)
    requires
        half > 0,
    ensures
        x / half == 2 * (x / (2 * half)) + (x / half) % 2,
{
    lemma_div_denominator(x as int, half as int, 2);
    assert(x / (half * 2) == (x / half) / 2);
    assert(half * 2 == 2 * half);
}

/// The number of the limbs from `i` on.
spec fn limbs_from(s: Seq<u32>, i: int) -> nat {
    if i < s.len() {
        limbs_value(s.skip(i))
    } else {
        0
    }
}

proof fn lemma_limbs_from(s: Seq<u32>, i: int)
    requires
        0 <= i,
    ensures
        limbs_from(s, i) == (if i < s.len() {
            s[i]
        } else {
            0
        }) + 0x1_0000_0000 * limbs_from(s, i + 1),
{
    if i < s.len() {
        assert(s.skip(i).skip(1) =~= s.skip(i + 1));
        assert(s.skip(i)[0] == s[i]);
        assert(limbs_value(s.skip(i)) == s[i] as nat + 0x1_0000_0000 * limbs_value(s.skip(i + 1)));
        if i + 1 == s.len() {
            assert(s.skip(i + 1) =~= Seq::<u32>::empty());
            assert(limbs_value(Seq::<u32>::empty()) == 0);
        }
    }
}

proof fn lemma_below(s: Seq<u32>)
    ensures
        limbs_value(s) < power(0x1_0000_0000, s.len()),
    decreases s.len(),
{
    if s.len() > 0 {
        lemma_below(s.skip(1));
        let p = power(0x1_0000_0000, s.skip(1).len());
        assert(power(0x1_0000_0000, s.len()) == 0x1_0000_0000 * p);
    }
}

proof fn lemma_top(s: Seq<u32>)
    requires
        s.len() > 0,
        s.last() > 0,
    ensures
        limbs_value(s) >= power(0x1_0000_0000, (s.len() - 1) as nat),
{
    let shorter = s.drop_last();
    assert(s =~= shorter.push(s.last()));
    lemma_limbs_push(shorter, s.last());
    let p = power(0x1_0000_0000, shorter.len());
    let x = s.last() as nat;
    assert(p * x >= p) by (nonlinear_arith)
        requires
            x >= 1,
            p >= 0,
    ;
}

proof fn lemma_split(s: Seq<u32>, i: int)
    requires
        0 <= i <= s.len(),
    ensures
        limbs_value(s) == limbs_value(s.take(i)) + power(0x1_0000_0000, i as nat) * limbs_value(
            s.skip(i),
        ),
    decreases i,
{
    if i == 0 {
        assert(s.take(0) =~= Seq::<u32>::empty());
        assert(s.skip(0) =~= s);
        assert(1 * limbs_value(s) == limbs_value(s));
    } else {
        let r = s.skip(1);
        lemma_split(r, i - 1);
        assert(s.take(i).skip(1) =~= r.take(i - 1));
        assert(r.skip(i - 1) =~= s.skip(i));
        let p = power(0x1_0000_0000, (i - 1) as nat);
        let t = limbs_value(r.take(i - 1));
        let v = limbs_value(s.skip(i));
        assert(0x1_0000_0000 * (t + p * v) == 0x1_0000_0000 * t + (0x1_0000_0000 * p) * v)
            by (nonlinear_arith);
    }
}

} // verus!
