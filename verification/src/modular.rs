//! A residue-class integer: a value held in the canonical range
//! `[0, modulus)`, with field arithmetic over a caller-supplied positive
//! modulus, including division and square roots found by bounded scans.

use vstd::prelude::*;

verus! {

use crate::arith::{
    gcd, gcd_u32, mod_div, min_mod_root, has_mod_root, is_mod_root, lemma_mod_div_exists,
    lemma_mod_div_is, lemma_min_mod_root_is,
};
use vstd::arithmetic::div_mod::{
    lemma_fundamental_div_mod, lemma_small_mod, lemma_mod_bound, lemma_mod_multiples_vanish,
    lemma_mul_mod_noop_left,
};
use vstd::arithmetic::mul::lemma_mul_is_commutative;
use vstd::arithmetic::power::{pow, lemma_pow1, lemma_pow_adds};

/// The product of two values in the range of a non-negative `i32` stays
/// well inside `u64`.
proof fn lemma_mul_bound_i32(a: int, b: int)
    requires
        0 <= a < 0x8000_0000,
        0 <= b < 0x8000_0000,
    ensures
        0 <= a * b < 0x4000_0000_0000_0000,
{
    assert(a * b < 0x4000_0000_0000_0000 && 0 <= a * b) by (nonlinear_arith)
        requires
            0 <= a < 0x8000_0000,
            0 <= b < 0x8000_0000,
    ;
}

/// A residue class: `value` lies in `[0, modulo)` whenever the struct is
/// well formed.  Equality compares the value only, as callers are expected
/// never to compare residues of differing modulus.
#[derive(Copy, Clone, Debug)]
pub struct Modular {
    value: i32,
    modulo: i32,
}

impl PartialEq for Modular {
    fn eq(&self, other: &Self) -> bool {
        self.value == other.value
    }
}

impl vstd::std_specs::cmp::PartialEqSpecImpl for Modular {
    open spec fn obeys_eq_spec() -> bool {
        true
    }

    open spec fn eq_spec(&self, other: &Self) -> bool {
        self.val() == other.val()
    }
}

impl Modular {
    /// The residue as a mathematical integer.
    pub closed spec fn val(self) -> int {
        self.value as int
    }

    /// The modulus as a mathematical integer.
    pub closed spec fn md(self) -> int {
        self.modulo as int
    }

    /// Well-formedness: the modulus is positive and the value canonical.
    pub open spec fn wf(self) -> bool {
        0 < self.md() && 0 <= self.val() < self.md()
    }

    /// Normalizes `value` into `[0, modulo)` by floor-modulo, so negative
    /// inputs wrap around.
    pub fn new(value: i32, modulo: i32) -> (r: Self)
        requires
            modulo > 0,
        ensures
            r.wf(),
            r.md() == modulo as int,
            r.val() == (value as int) % (modulo as int),
    {
        let m64: u64 = modulo as u64;
        let res: u64 = if value >= 0 {
            (value as u64) % m64
        } else {
            let n: u64 = (-(value as i64)) as u64;
            let t: u64 = (n - 1) % m64;
            proof {
                let vi = value as int;
                let mi = modulo as int;
                let q = (n - 1) as int / mi;
                lemma_fundamental_div_mod((n - 1) as int, mi);
                lemma_mod_bound((n - 1) as int, mi);
                assert(mi * (q + 1) + vi == mi - 1 - t) by (nonlinear_arith)
                    requires
                        (n - 1) as int == mi * q + t,
                        vi == -(n as int),
                ;
                lemma_mod_multiples_vanish(q + 1, vi, mi);
                lemma_small_mod((mi - 1 - t) as nat, mi as nat);
            }
            m64 - 1 - t
        };
        proof {
            if value >= 0 {
                lemma_mod_bound(value as int, modulo as int);
            }
        }
        Self { value: res as i32, modulo }
    }

    /// The residue itself.
    pub fn value(&self) -> (r: i32)
        ensures
            r as int == self.val(),
    {
        self.value
    }

    /// The modulus.
    pub fn modulus(&self) -> (r: i32)
        ensures
            r as int == self.md(),
    {
        self.modulo
    }

    /// Addition of residues sharing a modulus.
    pub fn add(self, rhs: Self) -> (r: Self)
        requires
            self.wf(),
            rhs.wf(),
            self.md() == rhs.md(),
        ensures
            r.wf(),
            r.md() == self.md(),
            r.val() == (self.val() + rhs.val()) % self.md(),
    {
        let s: i64 = self.value as i64 + rhs.value as i64;
        let m: i64 = self.modulo as i64;
        let t: i64 = if s >= m {
            s - m
        } else {
            s
        };
        proof {
            let mi = self.md();
            if s >= m {
                lemma_mod_multiples_vanish(1, t as int, mi);
            }
            lemma_small_mod(t as nat, mi as nat);
        }
        Self { value: t as i32, modulo: self.modulo }
    }

    /// Subtraction of residues sharing a modulus.
    pub fn sub(self, rhs: Self) -> (r: Self)
        requires
            self.wf(),
            rhs.wf(),
            self.md() == rhs.md(),
        ensures
            r.wf(),
            r.md() == self.md(),
            r.val() == (self.val() - rhs.val()) % self.md(),
    {
        let d: i64 = self.value as i64 - rhs.value as i64;
        let m: i64 = self.modulo as i64;
        let t: i64 = if d < 0 {
            d + m
        } else {
            d
        };
        proof {
            let mi = self.md();
            if d < 0 {
                lemma_mod_multiples_vanish(1, d as int, mi);
            }
            lemma_small_mod(t as nat, mi as nat);
        }
        Self { value: t as i32, modulo: self.modulo }
    }

    /// Multiplication of residues sharing a modulus.
    pub fn mul(self, rhs: Self) -> (r: Self)
        requires
            self.wf(),
            rhs.wf(),
            self.md() == rhs.md(),
        ensures
            r.wf(),
            r.md() == self.md(),
            r.val() == (self.val() * rhs.val()) % self.md(),
    {
        proof {
            lemma_mul_bound_i32(self.val(), rhs.val());
        }
        let p: u64 = (self.value as u64) * (rhs.value as u64);
        let m64: u64 = self.modulo as u64;
        let t: u64 = p % m64;
        Self { value: t as i32, modulo: self.modulo }
    }

    /// Modular division: the unique quotient `k` in `[0, modulus)` with
    /// `k * rhs` congruent to `self`, found by scanning the candidates.
    /// Fails on a modulus mismatch, on a divisor not coprime to the
    /// modulus, and on a zero divisor, in that order of checks.
    #[verifier::loop_isolation(false)]
    pub fn try_div(&self, rhs: Self) -> (r: Result<Self, &'static str>)
        requires
            self.wf(),
            rhs.wf(),
        ensures
            match r {
                Ok(q) => self.md() == rhs.md() && rhs.val() != 0 && gcd(
                    rhs.val() as nat,
                    self.md() as nat,
                ) == 1 && q.wf() && q.md() == self.md() && (q.val() * rhs.val()) % self.md()
                    == self.val() && q.val() == mod_div(self.val(), rhs.val(), self.md()),
                Err(msg) => {
                    if self.md() != rhs.md() {
                        msg@ == "Attempted division by a value of differing modulo"@
                    } else if gcd(rhs.val() as nat, self.md() as nat) != 1 {
                        msg@
                            == "The RHS value did not satisfy the restraint of having a GCD of 1 with the LHS modulo."@
                    } else {
                        rhs.val() == 0 && msg@ == "Attempted divide by zero"@
                    }
                },
            },
    {
        if self.modulo != rhs.modulo {
            return Err("Attempted division by a value of differing modulo");
        }
        if gcd_u32(rhs.value as u32, self.modulo as u32) != 1 {
            return Err(
                "The RHS value did not satisfy the restraint of having a GCD of 1 with the LHS modulo.",
            );
        }
        if rhs.value == 0 {
            return Err("Attempted divide by zero");
        }
        let m = self.modulo;
        let m64: u64 = m as u64;
        let a = self.value;
        let b = rhs.value;
        let mut k: i32 = 0;
        while k < m
            invariant
                0 <= k <= m,
                forall|j: int| 0 <= j < k ==> #[trigger] ((j * (b as int)) % (m as int)) != a as int,
            decreases m - k,
        {
            proof {
                lemma_mul_bound_i32(k as int, b as int);
            }
            let prod: u64 = (k as u64) * (b as u64);
            if prod % m64 == a as u64 {
                proof {
                    lemma_mod_div_is(a as int, b as int, m as int, k as int);
                }
                return Ok(Self { value: k, modulo: m });
            }
            k = k + 1;
        }
        proof {
            lemma_mod_div_exists(a as int, b as int, m as int);
            assert(false);
        }
        vstd::pervasive::unreached()
    }

    /// Division that demands the side conditions of `try_div` up front,
    /// mirroring an operator that would halt on bad input.
    pub fn div(self, rhs: Self) -> (r: Self)
        requires
            self.wf(),
            rhs.wf(),
            self.md() == rhs.md(),
            rhs.val() != 0,
            gcd(rhs.val() as nat, self.md() as nat) == 1,
        ensures
            r.wf(),
            r.md() == self.md(),
            (r.val() * rhs.val()) % self.md() == self.val(),
            r.val() == mod_div(self.val(), rhs.val(), self.md()),
    {
        match self.try_div(rhs) {
            Ok(q) => q,
            Err(_) => vstd::pervasive::unreached(),
        }
    }

    /// The least square root of the residue in `[0, modulus)`, found by an
    /// ascending scan; fails when no such root exists.  The zero residue
    /// always has the root zero.
    #[verifier::loop_isolation(false)]
    pub fn sqrt(&self) -> (r: Result<Self, ()>)
        requires
            self.wf(),
        ensures
            match r {
                Ok(x) => x.wf() && x.md() == self.md() && has_mod_root(self.val(), self.md())
                    && x.val() == min_mod_root(self.val(), self.md()),
                Err(_) => !has_mod_root(self.val(), self.md()),
            },
    {
        let m = self.modulo;
        let m64: u64 = m as u64;
        let a = self.value;
        let mut x: i32 = 0;
        while x < m
            invariant
                0 <= x <= m,
                forall|y: int| 0 <= y < x ==> !is_mod_root(y, a as int, m as int),
            decreases m - x,
        {
            proof {
                lemma_mul_bound_i32(x as int, x as int);
            }
            let sq: u64 = (x as u64) * (x as u64);
            if sq % m64 == a as u64 {
                proof {
                    lemma_min_mod_root_is(a as int, m as int, x as int);
                }
                return Ok(Self { value: x, modulo: m });
            }
            x = x + 1;
        }
        proof {
            assert(forall|y: int| 0 <= y < m as int ==> !is_mod_root(y, a as int, m as int));
            assert(!has_mod_root(self.val(), self.md()));
        }
        Err(())
    }

    /// Exponentiation by repeated multiplication, for exponents of at
    /// least one.
    #[verifier::loop_isolation(false)]
    pub fn pow(self, power: i32) -> (r: Self)
        requires
            self.wf(),
            power >= 1,
        ensures
            r.wf(),
            r.md() == self.md(),
            r.val() == pow(self.val(), power as nat) % self.md(),
    {
        let ghost v = self.val();
        let ghost mi = self.md();
        proof {
            lemma_pow1(v);
            lemma_small_mod(v as nat, mi as nat);
        }
        let mut acc = self;
        let mut i: i32 = 1;
        while i < power
            invariant
                1 <= i <= power,
                acc.wf(),
                acc.md() == mi,
                acc.val() == pow(v, i as nat) % mi,
            decreases power - i,
        {
            acc = acc.mul(self);
            proof {
                lemma_mul_mod_noop_left(pow(v, i as nat), v, mi);
                lemma_pow_adds(v, i as nat, 1nat);
                lemma_pow1(v);
                lemma_mul_is_commutative(pow(v, i as nat), v);
            }
            i = i + 1;
        }
        acc
    }
}

} // verus!
