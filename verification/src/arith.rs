//! Number-theoretic groundwork: the greatest common divisor, Bezout
//! coefficients, and the existence and uniqueness of modular division and
//! square roots.  Everything here is stated for an arbitrary positive
//! modulus; the code itself only ever uses the fixed modulus 11.

use vstd::prelude::*;

verus! {

use vstd::arithmetic::div_mod::{
    lemma_fundamental_div_mod, lemma_small_mod, lemma_mod_bound, lemma_mod_multiples_vanish,
    lemma_mul_mod_noop, lemma_mul_mod_noop_left, lemma_mul_mod_noop_right, lemma_add_mod_noop,
    lemma_sub_mod_noop, lemma_mod_equivalence,
};
use vstd::arithmetic::mul::{lemma_mul_is_associative, lemma_mul_is_commutative,
    lemma_mul_is_distributive_sub, lemma_mul_is_distributive_add};

/// Greatest common divisor by Euclid's recursion.
pub open spec fn gcd(a: nat, b: nat) -> nat
    decreases b,
{
    if b == 0 {
        a
    } else {
        gcd(b, a % b)
    }
}

/// Euclid's algorithm, verified against the recursive definition.
pub fn gcd_u32(a0: u32, b0: u32) -> (g: u32)
    ensures
        g == gcd(a0 as nat, b0 as nat),
{
    let mut a = a0;
    let mut b = b0;
    while b != 0
        invariant
            gcd(a as nat, b as nat) == gcd(a0 as nat, b0 as nat),
        decreases b,
    {
        let t = a % b;
        a = b;
        b = t;
    }
    a
}

/// Bezout's identity: the greatest common divisor is an integer linear
/// combination of its two arguments.
pub proof fn lemma_bezout(a: nat, b: nat)
    ensures
        exists|x: int, y: int| #[trigger] (a * x + b * y) == gcd(a, b),
    decreases b,
{
    if b == 0 {
        assert(a * 1int + b * 0int == gcd(a, b));
    } else {
        lemma_bezout(b, a % b);
        let (x0, y0) = choose|x0: int, y0: int| #[trigger] (b * x0 + (a % b) * y0) == gcd(
            b,
            a % b,
        );
        let q = a as int / b as int;
        lemma_fundamental_div_mod(a as int, b as int);
        assert((a % b) as int == a as int - b as int * q);
        assert(b as int * x0 + (a as int - b as int * q) * y0 == a as int * y0 + b as int * (x0 - q
            * y0)) by (nonlinear_arith);
        assert(a * y0 + b * (x0 - q * y0) == gcd(a, b));
    }
}

/// A value coprime to the modulus has a multiplicative inverse.
pub proof fn lemma_mod_inverse_exists(b: nat, m: nat)
    requires
        0 < m,
        gcd(b, m) == 1,
    ensures
        exists|w: int| 0 <= w < m && #[trigger] ((b * w) % (m as int)) == 1int % (m as int),
{
    lemma_bezout(b, m);
    let (x, y) = choose|x: int, y: int| #[trigger] (b * x + m * y) == gcd(b, m);
    let mi = m as int;
    assert((b * x) % mi == 1int % mi) by {
        lemma_mul_is_commutative(mi, y);
        lemma_mod_multiples_vanish(y, b as int * x, mi);
        assert(mi * y + b * x == 1);
    }
    let w = x % mi;
    lemma_mod_bound(x, mi);
    lemma_mul_mod_noop_right(b as int, x, mi);
    assert((b * w) % mi == 1int % mi);
}

/// Multiplication by a value coprime to the modulus can be cancelled from
/// a congruence.
pub proof fn lemma_cong_cancel(u: int, x: int, y: int, m: int)
    requires
        0 < m,
        gcd((u % m) as nat, m as nat) == 1,
        (u * x) % m == (u * y) % m,
    ensures
        x % m == y % m,
{
    if m == 1 {
        lemma_mod_bound(x, m);
        lemma_mod_bound(y, m);
    } else {
        let ur = u % m;
        lemma_mod_bound(u, m);
        lemma_mod_inverse_exists(ur as nat, m as nat);
        let w = choose|w: int| 0 <= w < m && #[trigger] ((ur as nat * w) % m) == 1int % m;
        lemma_small_mod(1, m as nat);
        assert((ur * w) % m == 1);
        lemma_cancel_chain(u, x, ur, w, m);
        lemma_cancel_chain(u, y, ur, w, m);
        assert(((u * x) % m * w) % m == ((u * y) % m * w) % m);
    }
}

/// One link of the cancellation argument: multiplying a product by the
/// inverse of its first factor recovers the second factor, modulo m.
proof fn lemma_cancel_chain(u: int, x: int, ur: int, w: int, m: int)
    requires
        0 < m,
        ur == u % m,
        (ur * w) % m == 1,
        m > 1,
    ensures
        ((u * x) % m * w) % m == x % m,
{
    lemma_mul_mod_noop_left(u * x, w, m);
    assert(((u * x) % m * w) % m == (u * x * w) % m);
    lemma_mul_is_associative(u, x, w);
    lemma_mul_is_commutative(u, x * w);
    assert(u * x * w == (x * w) * u);
    lemma_mul_mod_noop_right(x * w, u, m);
    assert((x * w * u) % m == (x * w * ur) % m);
    lemma_mul_is_associative(x, w, ur);
    lemma_mul_mod_noop_right(x, w * ur, m);
    lemma_mul_is_commutative(w, ur);
    assert((x * (w * ur)) % m == (x * ((ur * w) % m)) % m);
    assert((u * x) % m * w % m == (x * 1) % m);
}

/// Modular division has a solution whenever the divisor is coprime to the
/// modulus.
pub proof fn lemma_mod_div_exists(a: int, b: int, m: int)
    requires
        0 < m,
        0 <= a < m,
        0 <= b < m,
        gcd(b as nat, m as nat) == 1,
    ensures
        exists|k: int| 0 <= k < m && #[trigger] ((k * b) % m) == a,
{
    if m == 1 {
        assert(0 <= 0int < m && (0int * b) % m == a) by {
            lemma_small_mod(0, m as nat);
        }
    } else {
        lemma_mod_inverse_exists(b as nat, m as nat);
        let w = choose|w: int| 0 <= w < m && #[trigger] ((b as nat * w) % m) == 1int % m;
        lemma_small_mod(1, m as nat);
        let k = (a * w) % m;
        lemma_mod_bound(a * w, m);
        assert((k * b) % m == a) by {
            lemma_mul_mod_noop_left(a * w, b, m);
            assert((k * b) % m == (a * w * b) % m);
            lemma_mul_is_associative(a, w, b);
            lemma_mul_mod_noop_right(a, w * b, m);
            lemma_mul_is_commutative(w, b);
            assert((a * (w * b)) % m == (a * ((b * w) % m)) % m);
            assert((k * b) % m == (a * 1) % m);
            lemma_small_mod(a as nat, m as nat);
        }
    }
}

/// Modular division by a value coprime to the modulus has at most one
/// solution in the canonical range.
pub proof fn lemma_mod_div_unique(k1: int, k2: int, b: int, m: int)
    requires
        0 < m,
        0 <= k1 < m,
        0 <= k2 < m,
        0 <= b < m,
        gcd(b as nat, m as nat) == 1,
        (k1 * b) % m == (k2 * b) % m,
    ensures
        k1 == k2,
{
    lemma_mul_is_commutative(k1, b);
    lemma_mul_is_commutative(k2, b);
    lemma_small_mod(b as nat, m as nat);
    lemma_cong_cancel(b, k1, k2, m);
    lemma_small_mod(k1 as nat, m as nat);
    lemma_small_mod(k2 as nat, m as nat);
}

/// The canonical quotient: the unique k in [0, m) with k * b congruent
/// to a.  Well defined whenever the divisor is coprime to the modulus.
pub open spec fn mod_div(a: int, b: int, m: int) -> int {
    choose|k: int| 0 <= k < m && #[trigger] ((k * b) % m) == a
}

/// Pins `mod_div` down to a concrete witness.
pub proof fn lemma_mod_div_is(a: int, b: int, m: int, k: int)
    requires
        0 < m,
        0 <= a < m,
        0 <= b < m,
        gcd(b as nat, m as nat) == 1,
        0 <= k < m,
        (k * b) % m == a,
    ensures
        mod_div(a, b, m) == k,
{
    let kc = mod_div(a, b, m);
    assert(0 <= kc < m && (kc * b) % m == a) by {
        assert(exists|j: int| 0 <= j < m && #[trigger] ((j * b) % m) == a);
    }
    lemma_mod_div_unique(kc, k, b, m);
}

/// x is a square root of v modulo m, drawn from the scan range [0, m).
pub open spec fn is_mod_root(x: int, v: int, m: int) -> bool {
    0 <= x < m && (x * x) % m == v
}

/// Some square root of v exists in [0, m).
pub open spec fn has_mod_root(v: int, m: int) -> bool {
    exists|x: int| #[trigger] is_mod_root(x, v, m)
}

/// The least square root of v in [0, m); what an ascending scan finds.
pub open spec fn min_mod_root(v: int, m: int) -> int {
    choose|x: int|
        #[trigger] is_mod_root(x, v, m) && (forall|y: int| 0 <= y < x ==> !is_mod_root(y, v, m))
}

/// Pins `min_mod_root` down to a concrete witness.
pub proof fn lemma_min_mod_root_is(v: int, m: int, x: int)
    requires
        is_mod_root(x, v, m),
        forall|y: int| 0 <= y < x ==> !is_mod_root(y, v, m),
    ensures
        has_mod_root(v, m),
        min_mod_root(v, m) == x,
{
    assert(has_mod_root(v, m));
    let xc = min_mod_root(v, m);
    assert(is_mod_root(xc, v, m) && (forall|y: int| 0 <= y < xc ==> !is_mod_root(y, v, m))) by {
        assert(is_mod_root(x, v, m) && (forall|y: int| 0 <= y < x ==> !is_mod_root(y, v, m)));
    }
    if xc < x {
        assert(!is_mod_root(xc, v, m));
    }
    if x < xc {
        assert(!is_mod_root(x, v, m));
    }
}

/// Whenever some root exists, the least root is itself a root, and
/// nothing below it is one.
pub proof fn lemma_min_root_exists(v: int, m: int, x0: int)
    requires
        is_mod_root(x0, v, m),
    ensures
        has_mod_root(v, m),
        is_mod_root(min_mod_root(v, m), v, m),
        forall|y: int| 0 <= y < min_mod_root(v, m) ==> !is_mod_root(y, v, m),
    decreases x0,
{
    if forall|y: int| 0 <= y < x0 ==> !is_mod_root(y, v, m) {
        lemma_min_mod_root_is(v, m, x0);
    } else {
        let y0 = choose|y: int| 0 <= y < x0 && #[trigger] is_mod_root(y, v, m);
        lemma_min_root_exists(v, m, y0);
    }
}

/// Congruent factors have congruent products.
pub proof fn lemma_cong_mul(x: int, y: int, x2: int, y2: int, m: int)
    requires
        0 < m,
        x % m == x2 % m,
        y % m == y2 % m,
    ensures
        (x * y) % m == (x2 * y2) % m,
{
    lemma_mul_mod_noop(x, y, m);
    lemma_mul_mod_noop(x2, y2, m);
}

/// Congruent terms have congruent sums.
pub proof fn lemma_cong_add(x: int, y: int, x2: int, y2: int, m: int)
    requires
        0 < m,
        x % m == x2 % m,
        y % m == y2 % m,
    ensures
        (x + y) % m == (x2 + y2) % m,
{
    lemma_add_mod_noop(x, y, m);
    lemma_add_mod_noop(x2, y2, m);
}

/// Congruent terms have congruent differences.
pub proof fn lemma_cong_sub(x: int, y: int, x2: int, y2: int, m: int)
    requires
        0 < m,
        x % m == x2 % m,
        y % m == y2 % m,
    ensures
        (x - y) % m == (x2 - y2) % m,
{
    lemma_sub_mod_noop(x, y, m);
    lemma_sub_mod_noop(x2, y2, m);
}

/// A product of two values coprime in residue to the modulus is nonzero
/// modulo it.
pub proof fn lemma_cong_mul_nonzero(x: int, y: int, m: int)
    requires
        0 < m,
        gcd((x % m) as nat, m as nat) == 1,
        y % m != 0,
    ensures
        (x * y) % m != 0,
{
    if (x * y) % m == 0 {
        assert(x * 0 == 0) by (nonlinear_arith);
        assert((x * y) % m == (x * 0) % m) by {
            lemma_small_mod(0, m as nat);
        }
        lemma_cong_cancel(x, y, 0, m);
        lemma_small_mod(0, m as nat);
        assert(false);
    }
}

} // verus!
