//! The decoding laws of the (10,6) code, proved against [`spec_decode`]:
//! a freshly encoded codeword decodes clean; corrupting one digit of a
//! clean word is repaired exactly; corrupting two digits is repaired
//! exactly; and a word that decodes to a repair decodes clean again after
//! the repair.

use vstd::prelude::*;

verus! {

use crate::arith::{
    gcd, mod_div, lemma_mod_div_is, lemma_cong_cancel, lemma_cong_mul, lemma_cong_add,
    lemma_cong_sub, lemma_cong_mul_nonzero, lemma_min_root_exists, min_mod_root, is_mod_root,
    has_mod_root,
};
use crate::decode::{spec_decode, coeff_p, coeff_q, coeff_r, SpecOutcome};
use crate::digits::{ints_of, is_digit_vals};
use crate::hamming::{
    check_digit, syndrome, syn_weight, wsum, lemma_wsum_take_succ, lemma_wsum_update,
};
use vstd::arithmetic::div_mod::{
    lemma_small_mod, lemma_mod_bound, lemma_mod_multiples_vanish, lemma_mul_mod_noop_right,
    lemma_mul_mod_noop_left, lemma_mod_twice, lemma_sub_mod_noop, lemma_mod_equivalence,
};

/// A word the decoder takes as error-free: ten digits, all four
/// syndromes zero.
pub open spec fn clean_word(d: Seq<u32>) -> bool {
    d.len() == 10 && is_digit_vals(d) && (forall|j: int| 0 <= j < 4 ==> syndrome(d, j) == 0)
}

/// Every residue other than zero is coprime to the prime modulus 11.
proof fn lemma_gcd11(v: int)
    requires
        1 <= v <= 10,
    ensures
        gcd(v as nat, 11) == 1,
{
    reveal_with_fuel(gcd, 12);
    if v == 1 {
        assert(gcd(1, 11) == 1);
    } else if v == 2 {
        assert(gcd(2, 11) == 1);
    } else if v == 3 {
        assert(gcd(3, 11) == 1);
    } else if v == 4 {
        assert(gcd(4, 11) == 1);
    } else if v == 5 {
        assert(gcd(5, 11) == 1);
    } else if v == 6 {
        assert(gcd(6, 11) == 1);
    } else if v == 7 {
        assert(gcd(7, 11) == 1);
    } else if v == 8 {
        assert(gcd(8, 11) == 1);
    } else if v == 9 {
        assert(gcd(9, 11) == 1);
    } else {
        assert(gcd(10, 11) == 1);
    }
}

/// A product of two values nonzero modulo 11 is nonzero modulo 11.
proof fn lemma_nz_mul(x: int, y: int)
    requires
        x % 11 != 0,
        y % 11 != 0,
    ensures
        (x * y) % 11 != 0,
{
    lemma_mod_bound(x, 11);
    lemma_gcd11(x % 11);
    lemma_cong_mul_nonzero(x, y, 11);
}

/// Cancelling a factor nonzero modulo 11 from a congruence.
proof fn lemma_cancel11(u: int, x: int, y: int)
    requires
        u % 11 != 0,
        (u * x) % 11 == (u * y) % 11,
    ensures
        x % 11 == y % 11,
{
    lemma_mod_bound(u, 11);
    lemma_gcd11(u % 11);
    lemma_cong_cancel(u, x, y, 11);
}

/// The value of a nonempty difference of digits, reduced modulo 11, is
/// never zero.
proof fn lemma_digit_delta(a: int, b: int)
    requires
        0 <= a <= 9,
        0 <= b <= 9,
        a != b,
    ensures
        1 <= (a - b) % 11 <= 10,
        (b + ((a - b) % 11)) % 11 == a,
{
    let dd = a - b;
    if dd > 0 {
        lemma_small_mod(dd as nat, 11);
    } else {
        lemma_mod_multiples_vanish(1, dd, 11);
        lemma_small_mod((dd + 11) as nat, 11);
    }
    lemma_mod_bound(dd, 11);
    lemma_cong_add(b, dd % 11, b, dd, 11);
    lemma_small_mod(a as nat, 11);
}

/// The syndrome weight tables hold the powers of the positions: the j-th
/// row holds the j-th power of i + 1 at index i, reduced modulo 11.
proof fn lemma_syn_weight_powers(i: int)
    requires
        0 <= i < 10,
    ensures
        syn_weight(0)[i] == 1,
        syn_weight(1)[i] == i + 1,
        syn_weight(2)[i] == ((i + 1) * (i + 1)) % 11,
        syn_weight(3)[i] == ((i + 1) * (i + 1) * (i + 1)) % 11,
{
    if i == 0 {
        assert(syn_weight(2)[0] == (1 * 1) % 11);
        assert(syn_weight(3)[0] == (1 * 1 * 1) % 11);
    } else if i == 1 {
        assert(syn_weight(2)[1] == (2 * 2) % 11);
        assert(syn_weight(3)[1] == (2 * 2 * 2) % 11);
    } else if i == 2 {
        assert(syn_weight(2)[2] == (3 * 3) % 11);
        assert(syn_weight(3)[2] == (3 * 3 * 3) % 11);
    } else if i == 3 {
        assert(syn_weight(2)[3] == (4 * 4) % 11);
        assert(syn_weight(3)[3] == (4 * 4 * 4) % 11);
    } else if i == 4 {
        assert(syn_weight(2)[4] == (5 * 5) % 11);
        assert(syn_weight(3)[4] == (5 * 5 * 5) % 11);
    } else if i == 5 {
        assert(syn_weight(2)[5] == (6 * 6) % 11);
        assert(syn_weight(3)[5] == (6 * 6 * 6) % 11);
    } else if i == 6 {
        assert(syn_weight(2)[6] == (7 * 7) % 11);
        assert(syn_weight(3)[6] == (7 * 7 * 7) % 11);
    } else if i == 7 {
        assert(syn_weight(2)[7] == (8 * 8) % 11);
        assert(syn_weight(3)[7] == (8 * 8 * 8) % 11);
    } else if i == 8 {
        assert(syn_weight(2)[8] == (9 * 9) % 11);
        assert(syn_weight(3)[8] == (9 * 9 * 9) % 11);
    } else {
        assert(syn_weight(2)[9] == (10 * 10) % 11);
        assert(syn_weight(3)[9] == (10 * 10 * 10) % 11);
    }
}

/// Corrupting one digit shifts each syndrome by the weighted change.
proof fn lemma_syndrome_of_update(d: Seq<u32>, i: int, e: u32, j: int)
    requires
        d.len() == 10,
        0 <= i < 10,
        0 <= j < 4,
    ensures
        syndrome(d.update(i, e), j) == (wsum(syn_weight(j), ints_of(d)) + syn_weight(j)[i] * (
        e - d[i])) % 11,
{
    assert(ints_of(d.update(i, e)) =~= ints_of(d).update(i, e as int));
    lemma_wsum_update(syn_weight(j), ints_of(d), i, e as int);
}

/// The syndromes of a clean word corrupted in one place are the weighted
/// changes themselves.
proof fn lemma_syndrome_single(c: Seq<u32>, i: int, e: u32, j: int)
    requires
        clean_word(c),
        0 <= i < 10,
        0 <= j < 4,
    ensures
        syndrome(c.update(i, e), j) == (syn_weight(j)[i] * (e - c[i])) % 11,
{
    lemma_syndrome_of_update(c, i, e, j);
    let t = wsum(syn_weight(j), ints_of(c));
    let b = syn_weight(j)[i] * (e - c[i]);
    assert(syndrome(c, j) == 0);
    assert(t % 11 == 0);
    lemma_cong_add(t, b, 0, b, 11);
    lemma_mod_twice(b, 11);
}

/// Two equal products modulo 11, stated once so the congruence chain can
/// be replayed for each error-locator coefficient.
proof fn lemma_prod_cong(x1: int, y1: int, x2: int, y2: int)
    requires
        x1 % 11 == x2 % 11,
        y1 % 11 == y2 % 11,
    ensures
        (x1 * y1) % 11 == (x2 * y2) % 11,
{
    lemma_cong_mul(x1, y1, x2, y2, 11);
}

/// Exactly one digit of a clean word altered to a different digit: the
/// decoder reports a single error, repairs the word back to the clean
/// one, and names the 1-indexed position and the magnitude of the change.
pub proof fn lemma_single_error_decodes(c: Seq<u32>, i: int, e: u32)
    requires
        clean_word(c),
        0 <= i < 10,
        e <= 9,
        e != c[i],
    ensures
        spec_decode(c.update(i, e)) == (SpecOutcome::Single {
            word: c,
            pos: i + 1,
            mag: (e - c[i]) % 11,
        }),
{
    let w = c.update(i, e);
    let pos = i + 1;
    let dd = e - c[i];
    lemma_digit_delta(e as int, c[i] as int);
    let delta = dd % 11;
    lemma_syn_weight_powers(i);
    lemma_syndrome_single(c, i, e, 0);
    lemma_syndrome_single(c, i, e, 1);
    lemma_syndrome_single(c, i, e, 2);
    lemma_syndrome_single(c, i, e, 3);
    let s0 = syndrome(w, 0);
    let s1 = syndrome(w, 1);
    let s2 = syndrome(w, 2);
    let s3 = syndrome(w, 3);
    let w2 = syn_weight(2)[i];
    let w3 = syn_weight(3)[i];
    assert(s0 == (1 * dd) % 11);
    assert(1 * dd == dd);
    assert(s0 == delta);
    assert(s0 != 0);
    lemma_mod_bound(pos * dd, 11);
    lemma_mod_bound(w2 * dd, 11);
    lemma_mod_bound(w3 * dd, 11);
    // The three error-locator coefficients vanish.
    lemma_mod_twice(pos * dd, 11);
    lemma_mod_twice(w2 * dd, 11);
    lemma_mod_twice(w3 * dd, 11);
    lemma_mod_twice(dd, 11);
    lemma_mod_twice(pos * pos, 11);
    lemma_mod_twice(pos * pos * pos, 11);
    assert((s1 * s1) % 11 == ((pos * dd) * (pos * dd)) % 11) by {
        lemma_prod_cong(s1, s1, pos * dd, pos * dd);
    }
    assert((s0 * s2) % 11 == (dd * ((pos * pos) * dd)) % 11) by {
        lemma_prod_cong(w2, dd, pos * pos, dd);
        assert(s2 % 11 == ((pos * pos) * dd) % 11);
        lemma_prod_cong(s0, s2, dd, (pos * pos) * dd);
    }
    assert((pos * dd) * (pos * dd) == dd * ((pos * pos) * dd)) by (nonlinear_arith);
    assert(coeff_p(s0, s1, s2, s3) == 0);
    assert((s0 * s3) % 11 == (dd * ((pos * pos * pos) * dd)) % 11) by {
        lemma_prod_cong(w3, dd, pos * pos * pos, dd);
        assert(s3 % 11 == ((pos * pos * pos) * dd) % 11);
        lemma_prod_cong(s0, s3, dd, (pos * pos * pos) * dd);
    }
    assert((s1 * s2) % 11 == ((pos * dd) * ((pos * pos) * dd)) % 11) by {
        lemma_prod_cong(w2, dd, pos * pos, dd);
        lemma_prod_cong(s1, s2, pos * dd, (pos * pos) * dd);
    }
    assert(dd * ((pos * pos * pos) * dd) == (pos * dd) * ((pos * pos) * dd)) by (nonlinear_arith);
    assert(coeff_q(s0, s1, s2, s3) == 0);
    assert((s2 * s2) % 11 == (((pos * pos) * dd) * ((pos * pos) * dd)) % 11) by {
        lemma_prod_cong(w2, dd, pos * pos, dd);
        lemma_prod_cong(s2, s2, (pos * pos) * dd, (pos * pos) * dd);
    }
    assert((s1 * s3) % 11 == ((pos * dd) * ((pos * pos * pos) * dd)) % 11) by {
        lemma_prod_cong(w3, dd, pos * pos * pos, dd);
        lemma_prod_cong(s1, s3, pos * dd, (pos * pos * pos) * dd);
    }
    assert(((pos * pos) * dd) * ((pos * pos) * dd) == (pos * dd) * ((pos * pos * pos) * dd))
        by (nonlinear_arith);
    assert(coeff_r(s0, s1, s2, s3) == 0);
    // The single-error branch: the position is s1 / s0.
    lemma_gcd11(delta);
    assert((pos * s0) % 11 == s1) by {
        lemma_mul_mod_noop_right(pos, dd, 11);
    }
    lemma_mod_bound(s1, 11);
    lemma_mod_div_is(s1, s0, 11, pos);
    assert(mod_div(s1, s0, 11) == pos);
    // The repaired digit is the clean one.
    assert(w[pos - 1] == e);
    let fixed = (e - s0) % 11;
    assert(fixed == c[i]) by {
        crate::arith::lemma_cong_sub(e as int, delta, e as int, dd, 11);
        lemma_small_mod(c[i] as nat, 11);
    }
    assert(w.update(pos - 1, fixed as u32) =~= c);
}


/// A weighted sum splits across a concatenation of the word.
proof fn lemma_wsum_split(w: Seq<int>, d1: Seq<int>, d2: Seq<int>)
    requires
        w.len() == d1.len() + d2.len(),
    ensures
        wsum(w, d1 + d2) == wsum(w.take(d1.len() as int), d1) + wsum(
            w.skip(d1.len() as int),
            d2,
        ),
    decreases d2.len(),
{
    let n1 = d1.len() as int;
    if d2.len() == 0 {
        assert(d1 + d2 =~= d1);
        assert(w.take(n1) =~= w);
        assert(w.skip(n1) =~= Seq::<int>::empty());
    } else {
        lemma_wsum_split(w.drop_last(), d1, d2.drop_last());
        assert((d1 + d2).drop_last() =~= d1 + d2.drop_last());
        assert(w.drop_last().take(n1) =~= w.take(n1));
        assert(w.drop_last().skip(n1) =~= w.skip(n1).drop_last());
        assert((d1 + d2).last() == d2.last());
        assert(w.skip(n1).last() == w.last());
    }
}

/// A weighted sum of four terms, written out.
proof fn lemma_wsum4(w: Seq<int>, d: Seq<int>)
    requires
        w.len() == 4,
        d.len() == 4,
    ensures
        wsum(w, d) == w[0] * d[0] + w[1] * d[1] + w[2] * d[2] + w[3] * d[3],
{
    assert(w.take(0) =~= Seq::<int>::empty());
    assert(d.take(0) =~= Seq::<int>::empty());
    lemma_wsum_take_succ(w, d, 0);
    lemma_wsum_take_succ(w, d, 1);
    lemma_wsum_take_succ(w, d, 2);
    lemma_wsum_take_succ(w, d, 3);
    assert(w.take(4) =~= w);
    assert(d.take(4) =~= d);
}

/// A weighted sum of six terms, written out.
proof fn lemma_wsum6(w: Seq<int>, d: Seq<int>)
    requires
        w.len() == 6,
        d.len() == 6,
    ensures
        wsum(w, d) == w[0] * d[0] + w[1] * d[1] + w[2] * d[2] + w[3] * d[3] + w[4] * d[4] + w[5]
            * d[5],
{
    assert(w.take(0) =~= Seq::<int>::empty());
    assert(d.take(0) =~= Seq::<int>::empty());
    lemma_wsum_take_succ(w, d, 0);
    lemma_wsum_take_succ(w, d, 1);
    lemma_wsum_take_succ(w, d, 2);
    lemma_wsum_take_succ(w, d, 3);
    lemma_wsum_take_succ(w, d, 4);
    lemma_wsum_take_succ(w, d, 5);
    assert(w.take(6) =~= w);
    assert(d.take(6) =~= d);
}

/// The codeword of a six-digit payload: the payload followed by its four
/// check digits.
pub open spec fn codeword(p: Seq<u32>) -> Seq<u32> {
    p + Seq::new(4, |k: int| check_digit(p, k) as u32)
}

/// One syndrome of a fresh codeword vanishes: each syndrome weight row,
/// applied to a payload extended by its check digits, sums to a multiple
/// of eleven.
#[verifier::rlimit(100)]
proof fn lemma_codeword_syndrome_zero(p: Seq<u32>, j: int)
    requires
        p.len() == 6,
        is_digit_vals(p),
        forall|k: int| 0 <= k < 4 ==> 0 <= #[trigger] check_digit(p, k) <= 9,
        0 <= j < 4,
    ensures
        syndrome(codeword(p), j) == 0,
{
    let cw = codeword(p);
    let w = syn_weight(j);
    let pint = ints_of(p);
    let cint = ints_of(Seq::new(4, |k: int| check_digit(p, k) as u32));
    assert(ints_of(cw) =~= pint + cint);
    lemma_wsum_split(w, pint, cint);
    lemma_wsum6(w.take(6), pint);
    lemma_wsum4(w.skip(6), cint);
    let p0 = pint[0];
    let p1 = pint[1];
    let p2 = pint[2];
    let p3 = pint[3];
    let p4 = pint[4];
    let p5 = pint[5];
    let e0 = wsum(crate::hamming::enc_weight(0), pint);
    let e1 = wsum(crate::hamming::enc_weight(1), pint);
    let e2 = wsum(crate::hamming::enc_weight(2), pint);
    let e3 = wsum(crate::hamming::enc_weight(3), pint);
    lemma_wsum6(crate::hamming::enc_weight(0), pint);
    lemma_wsum6(crate::hamming::enc_weight(1), pint);
    lemma_wsum6(crate::hamming::enc_weight(2), pint);
    lemma_wsum6(crate::hamming::enc_weight(3), pint);
    assert(e0 == 4 * p0 + 10 * p1 + 9 * p2 + 2 * p3 + 1 * p4 + 7 * p5);
    assert(e1 == 7 * p0 + 8 * p1 + 7 * p2 + 1 * p3 + 9 * p4 + 6 * p5);
    assert(e2 == 9 * p0 + 1 * p1 + 7 * p2 + 8 * p3 + 7 * p4 + 7 * p5);
    assert(e3 == 1 * p0 + 2 * p1 + 9 * p2 + 10 * p3 + 4 * p4 + 1 * p5);
    assert(cint[0] == e0 % 11 && cint[1] == e1 % 11 && cint[2] == e2 % 11 && cint[3] == e3 % 11);
    let x = w[0] * p0 + w[1] * p1 + w[2] * p2 + w[3] * p3 + w[4] * p4 + w[5] * p5;
    let t = wsum(w, ints_of(cw));
    assert(t == x + (w[6] * (e0 % 11) + w[7] * (e1 % 11) + w[8] * (e2 % 11) + w[9] * (e3 % 11)));
    let t2 = x + (w[6] * e0 + w[7] * e1 + w[8] * e2 + w[9] * e3);
    assert(t % 11 == t2 % 11) by {
        lemma_mul_mod_noop_right(w[6], e0, 11);
        lemma_mul_mod_noop_right(w[7], e1, 11);
        lemma_mul_mod_noop_right(w[8], e2, 11);
        lemma_mul_mod_noop_right(w[9], e3, 11);
        lemma_cong_add(w[6] * (e0 % 11), w[7] * (e1 % 11), w[6] * e0, w[7] * e1, 11);
        lemma_cong_add(w[8] * (e2 % 11), w[9] * (e3 % 11), w[8] * e2, w[9] * e3, 11);
        lemma_cong_add(
            w[6] * (e0 % 11) + w[7] * (e1 % 11),
            w[8] * (e2 % 11) + w[9] * (e3 % 11),
            w[6] * e0 + w[7] * e1,
            w[8] * e2 + w[9] * e3,
            11,
        );
        lemma_cong_add(
            x,
            w[6] * (e0 % 11) + w[7] * (e1 % 11) + w[8] * (e2 % 11) + w[9] * (e3 % 11),
            x,
            w[6] * e0 + w[7] * e1 + w[8] * e2 + w[9] * e3,
            11,
        );
    }
    if j == 0 {
        assert(w[0] == 1 && w[1] == 1 && w[2] == 1 && w[3] == 1 && w[4] == 1 && w[5] == 1 && w[6]
            == 1 && w[7] == 1 && w[8] == 1 && w[9] == 1);
        assert(t2 == 11 * (2 * p0 + 2 * p1 + 3 * p2 + 2 * p3 + 2 * p4 + 2 * p5))
            by (nonlinear_arith)
            requires
            x == 1 * p0 + 1 * p1 + 1 * p2 + 1 * p3 + 1 * p4 + 1 * p5,
            t2 == x + (1 * e0 + 1 * e1 + 1 * e2 + 1 * e3),
            e0 == 4 * p0 + 10 * p1 + 9 * p2 + 2 * p3 + 1 * p4 + 7 * p5,
            e1 == 7 * p0 + 8 * p1 + 7 * p2 + 1 * p3 + 9 * p4 + 6 * p5,
            e2 == 9 * p0 + 1 * p1 + 7 * p2 + 8 * p3 + 7 * p4 + 7 * p5,
            e3 == 1 * p0 + 2 * p1 + 9 * p2 + 10 * p3 + 4 * p4 + 1 * p5,
        ;
        lemma_mod_multiples_vanish(
            2 * p0 + 2 * p1 + 3 * p2 + 2 * p3 + 2 * p4 + 2 * p5,
            0,
            11,
        );
    } else if j == 1 {
        assert(w[0] == 1 && w[1] == 2 && w[2] == 3 && w[3] == 4 && w[4] == 5 && w[5] == 6 && w[6]
            == 7 && w[7] == 8 && w[8] == 9 && w[9] == 10);
        assert(t2 == 11 * (16 * p0 + 15 * p1 + 25 * p2 + 18 * p3 + 17 * p4 + 16 * p5))
            by (nonlinear_arith)
            requires
            x == 1 * p0 + 2 * p1 + 3 * p2 + 4 * p3 + 5 * p4 + 6 * p5,
            t2 == x + (7 * e0 + 8 * e1 + 9 * e2 + 10 * e3),
            e0 == 4 * p0 + 10 * p1 + 9 * p2 + 2 * p3 + 1 * p4 + 7 * p5,
            e1 == 7 * p0 + 8 * p1 + 7 * p2 + 1 * p3 + 9 * p4 + 6 * p5,
            e2 == 9 * p0 + 1 * p1 + 7 * p2 + 8 * p3 + 7 * p4 + 7 * p5,
            e3 == 1 * p0 + 2 * p1 + 9 * p2 + 10 * p3 + 4 * p4 + 1 * p5,
        ;
        lemma_mod_multiples_vanish(
            16 * p0 + 15 * p1 + 25 * p2 + 18 * p3 + 17 * p4 + 16 * p5,
            0,
            11,
        );
    } else if j == 2 {
        assert(w[0] == 1 && w[1] == 4 && w[2] == 9 && w[3] == 5 && w[4] == 3 && w[5] == 3 && w[6]
            == 5 && w[7] == 9 && w[8] == 4 && w[9] == 1);
        assert(t2 == 11 * (11 * p0 + 12 * p1 + 14 * p2 + 6 * p3 + 11 * p4 + 11 * p5))
            by (nonlinear_arith)
            requires
            x == 1 * p0 + 4 * p1 + 9 * p2 + 5 * p3 + 3 * p4 + 3 * p5,
            t2 == x + (5 * e0 + 9 * e1 + 4 * e2 + 1 * e3),
            e0 == 4 * p0 + 10 * p1 + 9 * p2 + 2 * p3 + 1 * p4 + 7 * p5,
            e1 == 7 * p0 + 8 * p1 + 7 * p2 + 1 * p3 + 9 * p4 + 6 * p5,
            e2 == 9 * p0 + 1 * p1 + 7 * p2 + 8 * p3 + 7 * p4 + 7 * p5,
            e3 == 1 * p0 + 2 * p1 + 9 * p2 + 10 * p3 + 4 * p4 + 1 * p5,
        ;
        lemma_mod_multiples_vanish(
            11 * p0 + 12 * p1 + 14 * p2 + 6 * p3 + 11 * p4 + 11 * p5,
            0,
            11,
        );
    } else {
        assert(w[0] == 1 && w[1] == 8 && w[2] == 5 && w[3] == 9 && w[4] == 4 && w[5] == 7 && w[6]
            == 2 && w[7] == 6 && w[8] == 3 && w[9] == 10);
        assert(t2 == 11 * (8 * p0 + 9 * p1 + 16 * p2 + 13 * p3 + 11 * p4 + 8 * p5))
            by (nonlinear_arith)
            requires
            x == 1 * p0 + 8 * p1 + 5 * p2 + 9 * p3 + 4 * p4 + 7 * p5,
            t2 == x + (2 * e0 + 6 * e1 + 3 * e2 + 10 * e3),
            e0 == 4 * p0 + 10 * p1 + 9 * p2 + 2 * p3 + 1 * p4 + 7 * p5,
            e1 == 7 * p0 + 8 * p1 + 7 * p2 + 1 * p3 + 9 * p4 + 6 * p5,
            e2 == 9 * p0 + 1 * p1 + 7 * p2 + 8 * p3 + 7 * p4 + 7 * p5,
            e3 == 1 * p0 + 2 * p1 + 9 * p2 + 10 * p3 + 4 * p4 + 1 * p5,
        ;
        lemma_mod_multiples_vanish(
            8 * p0 + 9 * p1 + 16 * p2 + 13 * p3 + 11 * p4 + 8 * p5,
            0,
            11,
        );
    }
    lemma_small_mod(0, 11);
}

/// A fresh codeword decodes clean: for every payload the encoder accepts,
/// decoding the encoded word finds no error.
pub proof fn lemma_encode_decodes_clean(p: Seq<u32>)
    requires
        p.len() == 6,
        is_digit_vals(p),
        forall|k: int| 0 <= k < 4 ==> #[trigger] check_digit(p, k) <= 9,
    ensures
        clean_word(codeword(p)),
        spec_decode(codeword(p)) == SpecOutcome::Clean,
{
    let cw = codeword(p);
    assert forall|k: int| 0 <= k < 4 implies 0 <= #[trigger] check_digit(p, k) <= 9 by {
        lemma_mod_bound(wsum(crate::hamming::enc_weight(k), ints_of(p)), 11);
    }
    assert forall|i: int| 0 <= i < 10 implies #[trigger] cw[i] <= 9 by {
        if i >= 6 {
            lemma_mod_bound(wsum(crate::hamming::enc_weight(i - 6), ints_of(p)), 11);
        }
    }
    assert forall|j: int| 0 <= j < 4 implies #[trigger] syndrome(cw, j) == 0 by {
        lemma_codeword_syndrome_zero(p, j);
    }
}


/// A small nonzero value stays nonzero modulo 11.
proof fn lemma_small_nz(x: int)
    requires
        -10 <= x <= 10,
        x != 0,
    ensures
        x % 11 != 0,
{
    if x > 0 {
        lemma_small_mod(x as nat, 11);
    } else {
        lemma_mod_multiples_vanish(1, x, 11);
        lemma_small_mod((x + 11) as nat, 11);
    }
}

/// The word obtained by corrupting two positions of a word.
pub open spec fn word2(c: Seq<u32>, i1: int, e1: u32, i2: int, e2: u32) -> Seq<u32> {
    c.update(i1, e1).update(i2, e2)
}

/// The discriminant the decoder derives from a word's syndromes.
pub open spec fn disc_of(w: Seq<u32>) -> int {
    let s0 = syndrome(w, 0);
    let s1 = syndrome(w, 1);
    let s2 = syndrome(w, 2);
    let s3 = syndrome(w, 3);
    let q = coeff_q(s0, s1, s2, s3);
    let p = coeff_p(s0, s1, s2, s3);
    let r = coeff_r(s0, s1, s2, s3);
    ((q * q) % 11 - (((4 * p) % 11) * r) % 11) % 11
}

/// The syndromes of a clean word corrupted in two places are the sums of
/// the two weighted changes, with the weights the powers of the
/// 1-indexed positions.
proof fn lemma_syndromes_two(c: Seq<u32>, i1: int, e1: u32, i2: int, e2: u32)
    requires
        clean_word(c),
        0 <= i1 < 10,
        0 <= i2 < 10,
        i1 != i2,
    ensures
        ({
            let w = word2(c, i1, e1, i2, e2);
            let a = i1 + 1;
            let b = i2 + 1;
            let da = e1 - c[i1];
            let db = e2 - c[i2];
            &&& syndrome(w, 0) == (da + db) % 11
            &&& syndrome(w, 1) == (a * da + b * db) % 11
            &&& syndrome(w, 2) == ((a * a) * da + (b * b) * db) % 11
            &&& syndrome(w, 3) == ((a * a * a) * da + (b * b * b) * db) % 11
        }),
{
    let w = word2(c, i1, e1, i2, e2);
    let mid = c.update(i1, e1);
    let a = i1 + 1;
    let b = i2 + 1;
    let da = e1 - c[i1];
    let db = e2 - c[i2];
    lemma_syn_weight_powers(i1);
    lemma_syn_weight_powers(i2);
    assert forall|j: int| 0 <= j < 4 implies #[trigger] syndrome(w, j) == (syn_weight(j)[i1] * da
        + syn_weight(j)[i2] * db) % 11 by {
        assert(ints_of(mid) =~= ints_of(c).update(i1, e1 as int));
        lemma_wsum_update(syn_weight(j), ints_of(c), i1, e1 as int);
        assert(ints_of(w) =~= ints_of(mid).update(i2, e2 as int));
        lemma_wsum_update(syn_weight(j), ints_of(mid), i2, e2 as int);
        assert(mid[i2] == c[i2]);
        let t = wsum(syn_weight(j), ints_of(c));
        assert(syndrome(c, j) == 0);
        assert(t % 11 == 0);
        let bsum = syn_weight(j)[i1] * da + syn_weight(j)[i2] * db;
        assert(wsum(syn_weight(j), ints_of(w)) == t + bsum);
        lemma_cong_add(t, bsum, 0, bsum, 11);
        lemma_mod_twice(bsum, 11);
    }
    // Replace the reduced table weights by the unreduced powers.
    assert(syndrome(w, 0) == (da + db) % 11) by {
        assert(syn_weight(0)[i1] * da + syn_weight(0)[i2] * db == da + db) by (nonlinear_arith)
            requires
                syn_weight(0)[i1] == 1,
                syn_weight(0)[i2] == 1,
        ;
    }
    assert(syndrome(w, 1) == (a * da + b * db) % 11);
    assert(syndrome(w, 2) == ((a * a) * da + (b * b) * db) % 11) by {
        lemma_mod_twice(a * a, 11);
        lemma_mod_twice(b * b, 11);
        lemma_prod_cong(syn_weight(2)[i1], da, a * a, da);
        lemma_prod_cong(syn_weight(2)[i2], db, b * b, db);
        lemma_cong_add(
            syn_weight(2)[i1] * da,
            syn_weight(2)[i2] * db,
            (a * a) * da,
            (b * b) * db,
            11,
        );
        lemma_mod_twice(syn_weight(2)[i1] * da + syn_weight(2)[i2] * db, 11);
    }
    assert(syndrome(w, 3) == ((a * a * a) * da + (b * b * b) * db) % 11) by {
        lemma_mod_twice(a * a * a, 11);
        lemma_mod_twice(b * b * b, 11);
        lemma_prod_cong(syn_weight(3)[i1], da, a * a * a, da);
        lemma_prod_cong(syn_weight(3)[i2], db, b * b * b, db);
        lemma_cong_add(
            syn_weight(3)[i1] * da,
            syn_weight(3)[i2] * db,
            (a * a * a) * da,
            (b * b * b) * db,
            11,
        );
        lemma_mod_twice(syn_weight(3)[i1] * da + syn_weight(3)[i2] * db, 11);
    }
}


/// The ring identity behind the first error-locator coefficient.
proof fn lemma_ring_p(a: int, b: int, da: int, db: int)
    ensures
        (a * da + b * db) * (a * da + b * db) - (da + db) * ((a * a) * da + (b * b) * db) == -((da
            * db) * ((a - b) * (a - b))),
{
    assert((a * da + b * db) * (a * da + b * db) == (a * da) * (a * da) + 2 * ((a * da) * (b * db))
        + (b * db) * (b * db)) by (nonlinear_arith);
    assert((da + db) * ((a * a) * da + (b * b) * db) == ((a * a) * da) * da + ((b * b) * db) * da
        + ((a * a) * da) * db + ((b * b) * db) * db) by (nonlinear_arith);
    assert((a * da) * (a * da) == ((a * a) * da) * da) by (nonlinear_arith);
    assert((b * db) * (b * db) == ((b * b) * db) * db) by (nonlinear_arith);
    assert((a * da) * (b * db) == (a * b) * (da * db)) by (nonlinear_arith);
    assert(((b * b) * db) * da == (b * b) * (da * db)) by (nonlinear_arith);
    assert(((a * a) * da) * db == (a * a) * (da * db)) by (nonlinear_arith);
    assert(2 * ((a * b) * (da * db)) - ((b * b) * (da * db) + (a * a) * (da * db)) == -((da * db) * ((a - b) * (a - b))))
        by (nonlinear_arith);
}

/// The ring identity behind the second error-locator coefficient.
proof fn lemma_ring_q(a: int, b: int, da: int, db: int)
    ensures
        (da + db) * ((a * a * a) * da + (b * b * b) * db) - (a * da + b * db) * ((a * a) * da + (b
            * b) * db) == ((da * db) * ((a - b) * (a - b))) * (a + b),
{
    assert((da + db) * ((a * a * a) * da + (b * b * b) * db) == ((a * a * a) * da) * da + ((b * b
        * b) * db) * da + ((a * a * a) * da) * db + ((b * b * b) * db) * db) by (nonlinear_arith);
    assert((a * da + b * db) * ((a * a) * da + (b * b) * db) == (a * da) * ((a * a) * da) + (a * da)
        * ((b * b) * db) + (b * db) * ((a * a) * da) + (b * db) * ((b * b) * db))
        by (nonlinear_arith);
    assert(((a * a * a) * da) * da == (a * da) * ((a * a) * da)) by (nonlinear_arith);
    assert(((b * b * b) * db) * db == (b * db) * ((b * b) * db)) by (nonlinear_arith);
    assert(((b * b * b) * db) * da == (b * b * b) * (da * db)) by (nonlinear_arith);
    assert(((a * a * a) * da) * db == (a * a * a) * (da * db)) by (nonlinear_arith);
    assert((a * da) * ((b * b) * db) == (a * (b * b)) * (da * db)) by (nonlinear_arith);
    assert((b * db) * ((a * a) * da) == ((a * a) * b) * (da * db)) by (nonlinear_arith);
    assert((a * a * a) * (da * db) + (b * b * b) * (da * db) - ((a * (b * b)) * (da * db) + ((a * a) * b) * (da * db)) == ((da * db) * ((a
        - b) * (a - b))) * (a + b)) by (nonlinear_arith);
}

/// The ring identity behind the third error-locator coefficient.
proof fn lemma_ring_r(a: int, b: int, da: int, db: int)
    ensures
        ((a * a) * da + (b * b) * db) * ((a * a) * da + (b * b) * db) - (a * da + b * db) * ((a * a
            * a) * da + (b * b * b) * db) == -(((da * db) * ((a - b) * (a - b))) * (a * b)),
{
    assert(((a * a) * da + (b * b) * db) * ((a * a) * da + (b * b) * db) == ((a * a) * da) * ((a
        * a) * da) + 2 * (((a * a) * da) * ((b * b) * db)) + ((b * b) * db) * ((b * b) * db))
        by (nonlinear_arith);
    assert((a * da + b * db) * ((a * a * a) * da + (b * b * b) * db) == (a * da) * ((a * a * a)
        * da) + (a * da) * ((b * b * b) * db) + (b * db) * ((a * a * a) * da) + (b * db) * ((b * b
        * b) * db)) by (nonlinear_arith);
    assert(((a * a) * da) * ((a * a) * da) == (a * da) * ((a * a * a) * da)) by (nonlinear_arith);
    assert(((b * b) * db) * ((b * b) * db) == (b * db) * ((b * b * b) * db)) by (nonlinear_arith);
    assert(((a * a) * da) * ((b * b) * db) == ((a * a) * (b * b)) * (da * db)) by (nonlinear_arith);
    assert((a * da) * ((b * b * b) * db) == (a * (b * b * b)) * (da * db)) by (nonlinear_arith);
    assert((b * db) * ((a * a * a) * da) == ((a * a * a) * b) * (da * db)) by (nonlinear_arith);
    assert(2 * (((a * a) * (b * b)) * (da * db)) - ((a * (b * b * b)) * (da * db) + ((a * a * a)
        * b) * (da * db)) == (2 * ((a * a) * (b * b)) - ((a * (b * b * b)) + ((a * a * a) * b))) * (
    da * db)) by (nonlinear_arith);
    assert(2 * ((a * a) * (b * b)) - ((a * (b * b * b)) + ((a * a * a) * b)) == -(((a - b) * (a
        - b)) * (a * b))) by (nonlinear_arith);
    assert((-(((a - b) * (a - b)) * (a * b))) * (da * db) == -(((da * db) * ((a - b) * (a - b))) * (
    a * b))) by (nonlinear_arith);
}

/// The ring identity behind the discriminant.
proof fn lemma_ring_disc(a: int, b: int, kk: int)
    ensures
        (kk * (a + b)) * (kk * (a + b)) - (4 * (-kk)) * (-(kk * (a * b))) == (kk * (a - b)) * (kk
            * (a - b)),
{
    assert((kk * (a + b)) * (kk * (a + b)) == (kk * kk) * ((a + b) * (a + b))) by (nonlinear_arith);
    assert((4 * (-kk)) * (-(kk * (a * b))) == (kk * kk) * (4 * (a * b))) by (nonlinear_arith);
    assert((kk * (a - b)) * (kk * (a - b)) == (kk * kk) * ((a - b) * (a - b))) by (nonlinear_arith);
    assert((kk * kk) * ((a + b) * (a + b)) - (kk * kk) * (4 * (a * b)) == (kk * kk) * ((a - b) * (a - b)))
        by (nonlinear_arith);
}

/// The error-locator coefficients of a doubly corrupted clean word, in
/// closed form, and the fact that the first cannot vanish.
proof fn lemma_coeffs_two(c: Seq<u32>, i1: int, e1: u32, i2: int, e2: u32)
    requires
        clean_word(c),
        0 <= i1 < 10,
        0 <= i2 < 10,
        i1 != i2,
        e1 <= 9,
        e2 <= 9,
        e1 != c[i1],
        e2 != c[i2],
    ensures
        ({
            let w = word2(c, i1, e1, i2, e2);
            let a = i1 + 1;
            let b = i2 + 1;
            let da = e1 - c[i1];
            let db = e2 - c[i2];
            let kk = (da * db) * ((a - b) * (a - b));
            let s0 = syndrome(w, 0);
            let s1 = syndrome(w, 1);
            let s2 = syndrome(w, 2);
            let s3 = syndrome(w, 3);
            &&& kk % 11 != 0
            &&& coeff_p(s0, s1, s2, s3) == (-kk) % 11
            &&& coeff_q(s0, s1, s2, s3) == (kk * (a + b)) % 11
            &&& coeff_r(s0, s1, s2, s3) == (-(kk * (a * b))) % 11
            &&& coeff_p(s0, s1, s2, s3) != 0
            &&& !(s0 == 0 && s1 == 0 && s2 == 0 && s3 == 0)
            &&& disc_of(w) == ((kk * (a - b)) * (kk * (a - b))) % 11
        }),
{
    let w = word2(c, i1, e1, i2, e2);
    let a = i1 + 1;
    let b = i2 + 1;
    let da = e1 - c[i1];
    let db = e2 - c[i2];
    let kk = (da * db) * ((a - b) * (a - b));
    lemma_syndromes_two(c, i1, e1, i2, e2);
    let u0 = da + db;
    let u1 = a * da + b * db;
    let u2 = (a * a) * da + (b * b) * db;
    let u3 = (a * a * a) * da + (b * b * b) * db;
    let s0 = syndrome(w, 0);
    let s1 = syndrome(w, 1);
    let s2 = syndrome(w, 2);
    let s3 = syndrome(w, 3);
    lemma_mod_twice(u0, 11);
    lemma_mod_twice(u1, 11);
    lemma_mod_twice(u2, 11);
    lemma_mod_twice(u3, 11);
    lemma_digit_delta(e1 as int, c[i1] as int);
    lemma_digit_delta(e2 as int, c[i2] as int);
    assert(da % 11 != 0);
    assert(db % 11 != 0);
    lemma_small_nz(a - b);
    assert(kk % 11 != 0) by {
        lemma_nz_mul(da, db);
        lemma_nz_mul(a - b, a - b);
        lemma_nz_mul(da * db, (a - b) * (a - b));
    }
    // The three coefficients in closed form.
    assert(coeff_p(s0, s1, s2, s3) == (-kk) % 11) by {
        lemma_prod_cong(s1, s1, u1, u1);
        lemma_prod_cong(s0, s2, u0, u2);
        lemma_sub_mod_noop(u1 * u1, u0 * u2, 11);
        lemma_ring_p(a, b, da, db);
    }
    assert(coeff_q(s0, s1, s2, s3) == (kk * (a + b)) % 11) by {
        lemma_prod_cong(s0, s3, u0, u3);
        lemma_prod_cong(s1, s2, u1, u2);
        lemma_sub_mod_noop(u0 * u3, u1 * u2, 11);
        lemma_ring_q(a, b, da, db);
    }
    assert(coeff_r(s0, s1, s2, s3) == (-(kk * (a * b))) % 11) by {
        lemma_prod_cong(s2, s2, u2, u2);
        lemma_prod_cong(s1, s3, u1, u3);
        lemma_sub_mod_noop(u2 * u2, u1 * u3, 11);
        lemma_ring_r(a, b, da, db);
    }
    let p = coeff_p(s0, s1, s2, s3);
    let q = coeff_q(s0, s1, s2, s3);
    let r = coeff_r(s0, s1, s2, s3);
    assert(p != 0) by {
        lemma_mod_bound(-kk, 11);
        if p == 0 {
            lemma_mod_equivalence(0, -kk, 11);
            assert((0 - (-kk)) % 11 == 0);
            assert(0 - (-kk) == kk);
            assert(false);
        }
    }
    // Not every syndrome is zero.
    if s0 == 0 {
        assert(s1 != 0) by {
            lemma_mod_equivalence(da + db, 0, 11);
            assert((db - (-da)) % 11 == 0) by {
                assert(da + db == db - (-da));
            }
            lemma_mod_equivalence(db, -da, 11);
            lemma_prod_cong(b, db, b, -da);
            lemma_cong_add(a * da, b * db, a * da, b * (-da), 11);
            assert(a * da + b * (-da) == da * (a - b)) by (nonlinear_arith);
            lemma_nz_mul(da, a - b);
            lemma_mod_twice(da * (a - b), 11);
        }
    }
    // The discriminant in closed form.
    assert(disc_of(w) == ((kk * (a - b)) * (kk * (a - b))) % 11) by {
        lemma_mod_twice(-kk, 11);
        lemma_mod_twice(kk * (a + b), 11);
        lemma_mod_twice(-(kk * (a * b)), 11);
        lemma_prod_cong(q, q, kk * (a + b), kk * (a + b));
        lemma_mul_mod_noop_left(4 * p, r, 11);
        lemma_prod_cong(4, p, 4, -kk);
        lemma_prod_cong(4 * p, r, 4 * (-kk), -(kk * (a * b)));
        lemma_sub_mod_noop(
            (kk * (a + b)) * (kk * (a + b)),
            (4 * (-kk)) * (-(kk * (a * b))),
            11,
        );
        lemma_ring_disc(a, b, kk);
    }
}



/// With the root of the discriminant congruent to kk times the position
/// difference, the double branch pins its two position divisions.
#[verifier::rlimit(100)]
proof fn lemma_double_positions(c: Seq<u32>, w: Seq<u32>, iu: int, eu: u32, iv: int, ev: u32)
    requires
        clean_word(c),
        0 <= iu < 10,
        0 <= iv < 10,
        iu != iv,
        eu <= 9,
        ev <= 9,
        eu != c[iu],
        ev != c[iv],
        w == word2(c, iu, eu, iv, ev),
        min_mod_root(disc_of(w), 11) % 11 == ((((eu - c[iu]) * (ev - c[iv])) * ((iu - iv) * (iu
            - iv))) * ((iu + 1) - (iv + 1))) % 11,
    ensures
        ({
            let s0 = syndrome(w, 0);
            let s1 = syndrome(w, 1);
            let s2 = syndrome(w, 2);
            let s3 = syndrome(w, 3);
            let p = coeff_p(s0, s1, s2, s3);
            let q = coeff_q(s0, s1, s2, s3);
            let rt = min_mod_root(disc_of(w), 11);
            let denom = (2 * p) % 11;
            &&& denom != 0
            &&& gcd(denom as nat, 11) == 1
            &&& mod_div((rt - q) % 11, denom, 11) == iv + 1
            &&& mod_div(((0 - q) % 11 - rt) % 11, denom, 11) == iu + 1
        }),
{
    let u = iu + 1;
    let v = iv + 1;
    let du = eu - c[iu];
    let dv = ev - c[iv];
    let kk = (du * dv) * ((u - v) * (u - v));
    lemma_coeffs_two(c, iu, eu, iv, ev);
    lemma_digit_delta(eu as int, c[iu] as int);
    lemma_digit_delta(ev as int, c[iv] as int);
    let s0 = syndrome(w, 0);
    let s1 = syndrome(w, 1);
    let s2 = syndrome(w, 2);
    let s3 = syndrome(w, 3);
    let p = coeff_p(s0, s1, s2, s3);
    let q = coeff_q(s0, s1, s2, s3);
    assert((u - v) * (u - v) == (iu - iv) * (iu - iv));
    let rt = min_mod_root(disc_of(w), 11);
    assert(rt % 11 == (kk * (u - v)) % 11);
    lemma_mod_bound(-kk, 11);
    lemma_mod_bound(kk * (u + v), 11);
    lemma_mod_twice(-kk, 11);
    lemma_mod_twice(kk * (u + v), 11);
    lemma_mod_twice(kk * (u - v), 11);
    let denom = (2 * p) % 11;
    assert(denom != 0 && gcd(denom as nat, 11) == 1) by {
        lemma_small_mod(2, 11);
        lemma_small_mod(p as nat, 11);
        lemma_nz_mul(2, p);
        lemma_mod_bound(2 * p, 11);
        lemma_gcd11(denom);
    }
    lemma_mod_bound(2 * p, 11);
    let n1 = (rt - q) % 11;
    assert((v * denom) % 11 == n1) by {
        lemma_mul_mod_noop_right(v, 2 * p, 11);
        lemma_prod_cong(2, p, 2, -kk);
        lemma_prod_cong(v, 2 * p, v, 2 * (-kk));
        lemma_cong_sub(rt, q, kk * (u - v), kk * (u + v), 11);
        assert(v * (2 * (-kk)) == kk * (u - v) - kk * (u + v)) by (nonlinear_arith);
        lemma_mod_twice(rt - q, 11);
    }
    lemma_mod_bound(rt - q, 11);
    lemma_mod_div_is(n1, denom, 11, v);
    let n2 = ((0 - q) % 11 - rt) % 11;
    assert((u * denom) % 11 == n2) by {
        lemma_mul_mod_noop_right(u, 2 * p, 11);
        lemma_prod_cong(2, p, 2, -kk);
        lemma_prod_cong(u, 2 * p, u, 2 * (-kk));
        lemma_cong_sub(0, q, 0, kk * (u + v), 11);
        lemma_cong_sub((0 - q) % 11, rt, 0 - (kk * (u + v)), kk * (u - v), 11);
        lemma_mod_twice((0 - q) % 11 - rt, 11);
        assert(u * (2 * (-kk)) == (0 - (kk * (u + v))) - kk * (u - v)) by (nonlinear_arith);
    }
    lemma_mod_bound((0 - q) % 11 - rt, 11);
    lemma_mod_div_is(n2, denom, 11, u);
}

/// The double branch pins its magnitude division as well.
#[verifier::rlimit(100)]
proof fn lemma_double_magnitudes(c: Seq<u32>, w: Seq<u32>, iu: int, eu: u32, iv: int, ev: u32)
    requires
        clean_word(c),
        0 <= iu < 10,
        0 <= iv < 10,
        iu != iv,
        eu <= 9,
        ev <= 9,
        eu != c[iu],
        ev != c[iv],
        w == word2(c, iu, eu, iv, ev),
    ensures
        ({
            let s0 = syndrome(w, 0);
            let s1 = syndrome(w, 1);
            &&& ((iv + 1) - (iu + 1)) % 11 != 0
            &&& gcd((((iv + 1) - (iu + 1)) % 11) as nat, 11) == 1
            &&& mod_div((((iv + 1) * s0) % 11 - s1) % 11, ((iv + 1) - (iu + 1)) % 11, 11) == (eu
                - c[iu]) % 11
            &&& (s0 - (eu - c[iu]) % 11) % 11 == (ev - c[iv]) % 11
        }),
{
    let u = iu + 1;
    let v = iv + 1;
    let du = eu - c[iu];
    let dv = ev - c[iv];
    lemma_syndromes_two(c, iu, eu, iv, ev);
    lemma_digit_delta(eu as int, c[iu] as int);
    lemma_digit_delta(ev as int, c[iv] as int);
    let u0 = du + dv;
    let u1 = u * du + v * dv;
    let s0 = syndrome(w, 0);
    let s1 = syndrome(w, 1);
    let dd = (v - u) % 11;
    lemma_small_nz(v - u);
    lemma_mod_bound(v - u, 11);
    assert(gcd(dd as nat, 11) == 1) by {
        lemma_gcd11(dd);
    }
    let mu = du % 11;
    let n3 = ((v * s0) % 11 - s1) % 11;
    assert((mu * dd) % 11 == n3) by {
        lemma_mul_mod_noop_right(v, u0, 11);
        lemma_prod_cong(mu, dd, du, v - u);
        lemma_sub_mod_noop(v * u0, u1, 11);
        assert(du * (v - u) == v * u0 - u1) by (nonlinear_arith)
            requires
                u0 == du + dv,
                u1 == u * du + v * dv,
        ;
        lemma_mod_twice(v * u0 - u1, 11);
    }
    lemma_mod_bound((v * s0) % 11 - s1, 11);
    lemma_mod_div_is(n3, dd, 11, mu);
    assert((s0 - mu) % 11 == dv % 11) by {
        lemma_cong_sub(s0, mu, u0, du, 11);
        assert(u0 - du == dv);
    }
}

/// The double branch is the one taken: the syndromes are not all zero and
/// the leading coefficient does not vanish.
proof fn lemma_branch_facts(c: Seq<u32>, i1: int, e1: u32, i2: int, e2: u32)
    requires
        clean_word(c),
        0 <= i1 < 10,
        0 <= i2 < 10,
        i1 != i2,
        e1 <= 9,
        e2 <= 9,
        e1 != c[i1],
        e2 != c[i2],
    ensures
        ({
            let w = word2(c, i1, e1, i2, e2);
            let s0 = syndrome(w, 0);
            let s1 = syndrome(w, 1);
            let s2 = syndrome(w, 2);
            let s3 = syndrome(w, 3);
            &&& coeff_p(s0, s1, s2, s3) != 0
            &&& !(s0 == 0 && s1 == 0 && s2 == 0 && s3 == 0)
        }),
{
    lemma_coeffs_two(c, i1, e1, i2, e2);
}

/// Repairing both corrupted positions restores the clean word.
proof fn lemma_restore_word(c: Seq<u32>, w: Seq<u32>, iu: int, eu: u32, iv: int, ev: u32)
    requires
        c.len() == 10,
        is_digit_vals(c),
        0 <= iu < 10,
        0 <= iv < 10,
        iu != iv,
        eu <= 9,
        ev <= 9,
        w == word2(c, iu, eu, iv, ev),
    ensures
        w[(iv + 1) - 1] == ev,
        w[(iu + 1) - 1] == eu,
        (ev - (ev - c[iv]) % 11) % 11 == c[iv],
        (eu - (eu - c[iu]) % 11) % 11 == c[iu],
        w.update((iv + 1) - 1, ((w[(iv + 1) - 1] - (ev - c[iv]) % 11) % 11) as u32).update(
            (iu + 1) - 1,
            ((w[(iu + 1) - 1] - (eu - c[iu]) % 11) % 11) as u32,
        ) == c,
{
    let du = eu - c[iu];
    let dv = ev - c[iv];
    let mu = du % 11;
    let mv = dv % 11;
    lemma_mod_bound(du, 11);
    lemma_mod_bound(dv, 11);
    assert((ev - mv) % 11 == c[iv]) by {
        lemma_cong_sub(ev as int, mv, ev as int, dv, 11);
        lemma_small_mod(c[iv] as nat, 11);
    }
    assert((eu - mu) % 11 == c[iu]) by {
        lemma_cong_sub(eu as int, mu, eu as int, du, 11);
        lemma_small_mod(c[iu] as nat, 11);
    }
    assert(w.update(iv, ((ev - mv) % 11) as u32).update(iu, ((eu - mu) % 11) as u32) =~= c);
}

/// The last stage of the double branch, from pinned positions and
/// magnitudes to the decoder's verdict.
#[verifier::rlimit(100)]
#[verifier::spinoff_prover]
proof fn lemma_with_positions_value(c: Seq<u32>, w: Seq<u32>, iu: int, eu: u32, iv: int, ev: u32)
    requires
        c.len() == 10,
        is_digit_vals(c),
        0 <= iu < 10,
        0 <= iv < 10,
        iu != iv,
        eu <= 9,
        ev <= 9,
        eu != c[iu],
        ev != c[iv],
        w == word2(c, iu, eu, iv, ev),
        ((iv + 1) - (iu + 1)) % 11 != 0,
        gcd((((iv + 1) - (iu + 1)) % 11) as nat, 11) == 1,
        mod_div(
            (((iv + 1) * syndrome(w, 0)) % 11 - syndrome(w, 1)) % 11,
            ((iv + 1) - (iu + 1)) % 11,
            11,
        ) == (eu - c[iu]) % 11,
        (syndrome(w, 0) - (eu - c[iu]) % 11) % 11 == (ev - c[iv]) % 11,
    ensures
        crate::decode::spec_double_with_positions(w, syndrome(w, 0), syndrome(w, 1), iv + 1, iu
            + 1) == (SpecOutcome::Double {
            word: c,
            pos1: iv + 1,
            pos2: iu + 1,
            mag1: (ev - c[iv]) % 11,
            mag2: (eu - c[iu]) % 11,
        }),
{
    lemma_digit_delta(eu as int, c[iu] as int);
    lemma_digit_delta(ev as int, c[iv] as int);
    lemma_restore_word(c, w, iu, eu, iv, ev);
}

/// With the root of the discriminant congruent to kk times the position
/// difference, the decoder's verdict is pinned completely.
#[verifier::rlimit(100)]
proof fn lemma_double_branch_pins(c: Seq<u32>, w: Seq<u32>, iu: int, eu: u32, iv: int, ev: u32)
    requires
        clean_word(c),
        0 <= iu < 10,
        0 <= iv < 10,
        iu != iv,
        eu <= 9,
        ev <= 9,
        eu != c[iu],
        ev != c[iv],
        w == word2(c, iu, eu, iv, ev),
        is_mod_root(min_mod_root(disc_of(w), 11), disc_of(w), 11),
        min_mod_root(disc_of(w), 11) % 11 == ((((eu - c[iu]) * (ev - c[iv])) * ((iu - iv) * (iu
            - iv))) * ((iu + 1) - (iv + 1))) % 11,
    ensures
        spec_decode(w) == (SpecOutcome::Double {
            word: c,
            pos1: iv + 1,
            pos2: iu + 1,
            mag1: (ev - c[iv]) % 11,
            mag2: (eu - c[iu]) % 11,
        }),
{
    let u = iu + 1;
    let v = iv + 1;
    lemma_double_positions(c, w, iu, eu, iv, ev);
    lemma_double_magnitudes(c, w, iu, eu, iv, ev);
    lemma_branch_facts(c, iu, eu, iv, ev);
    let s0 = syndrome(w, 0);
    let s1 = syndrome(w, 1);
    let s2 = syndrome(w, 2);
    let s3 = syndrome(w, 3);
    let p = coeff_p(s0, s1, s2, s3);
    let q = coeff_q(s0, s1, s2, s3);
    let r = coeff_r(s0, s1, s2, s3);
    let rt = min_mod_root(disc_of(w), 11);
    assert(spec_decode(w) == crate::decode::spec_decode_double(w, s0, s1, p, q, r));
    assert(has_mod_root(disc_of(w), 11)) by {
        assert(is_mod_root(rt, disc_of(w), 11));
    }
    assert(crate::decode::spec_decode_double(w, s0, s1, p, q, r)
        == crate::decode::spec_double_with_root(w, s0, s1, p, q, rt));
    assert(crate::decode::spec_double_with_root(w, s0, s1, p, q, rt)
        == crate::decode::spec_double_with_positions(w, s0, s1, v, u));
    lemma_with_positions_value(c, w, iu, eu, iv, ev);
}

/// The least root of the discriminant of a doubly corrupted clean word is
/// congruent to the product of the changes and the cube of the position
/// difference, with one of the two signs.
#[verifier::rlimit(100)]
proof fn lemma_double_root_cases(c: Seq<u32>, i1: int, e1: u32, i2: int, e2: u32)
    requires
        clean_word(c),
        0 <= i1 < 10,
        0 <= i2 < 10,
        i1 != i2,
        e1 <= 9,
        e2 <= 9,
        e1 != c[i1],
        e2 != c[i2],
    ensures
        ({
            let w = word2(c, i1, e1, i2, e2);
            let rt = min_mod_root(disc_of(w), 11);
            &&& is_mod_root(rt, disc_of(w), 11)
            &&& (rt % 11 == ((((e1 - c[i1]) * (e2 - c[i2])) * ((i1 - i2) * (i1 - i2))) * ((i1 + 1)
                - (i2 + 1))) % 11 || rt % 11 == ((((e2 - c[i2]) * (e1 - c[i1])) * ((i2 - i1) * (i2
                - i1))) * ((i2 + 1) - (i1 + 1))) % 11)
        }),
{
    let w = word2(c, i1, e1, i2, e2);
    let a = i1 + 1;
    let b = i2 + 1;
    let da = e1 - c[i1];
    let db = e2 - c[i2];
    let kk = (da * db) * ((a - b) * (a - b));
    lemma_coeffs_two(c, i1, e1, i2, e2);
    lemma_digit_delta(e1 as int, c[i1] as int);
    lemma_digit_delta(e2 as int, c[i2] as int);
    let disc = disc_of(w);
    lemma_small_nz(a - b);
    assert((kk * (a - b)) % 11 != 0) by {
        lemma_nz_mul(kk, a - b);
    }
    let gg = (kk * (a - b)) % 11;
    lemma_mod_bound(kk * (a - b), 11);
    assert(is_mod_root(gg, disc, 11)) by {
        lemma_prod_cong(gg, gg, kk * (a - b), kk * (a - b));
    }
    lemma_min_root_exists(disc, 11, gg);
    let rt = min_mod_root(disc, 11);
    // rt is gg or 11 - gg.
    assert(((rt - gg) * (rt + gg)) % 11 == 0) by {
        lemma_mod_equivalence(rt * rt, gg * gg, 11);
        assert((rt - gg) * (rt + gg) == rt * rt - gg * gg) by (nonlinear_arith);
    }
    if (rt - gg) % 11 != 0 && (rt + gg) % 11 != 0 {
        lemma_nz_mul(rt - gg, rt + gg);
        assert(false);
    }
    if (rt - gg) % 11 == 0 {
        if rt != gg {
            lemma_small_nz(rt - gg);
            assert(false);
        }
        assert(rt == gg);
        assert(rt % 11 == (kk * (a - b)) % 11) by {
            lemma_small_mod(rt as nat, 11);
            lemma_mod_twice(kk * (a - b), 11);
        }
        assert(kk * (a - b) == (((e1 - c[i1]) * (e2 - c[i2])) * ((i1 - i2) * (i1 - i2))) * ((i1 + 1)
            - (i2 + 1)));
    } else {
        assert((rt + gg) % 11 == 0);
        if rt + gg < 11 {
            lemma_small_mod((rt + gg) as nat, 11);
            assert(false);
        }
        lemma_mod_multiples_vanish(1, rt + gg - 11, 11);
        lemma_small_mod((rt + gg - 11) as nat, 11);
        assert(rt == 11 - gg);
        let kk2 = (db * da) * ((b - a) * (b - a));
        assert(rt % 11 == (kk2 * (b - a)) % 11) by {
            lemma_small_mod(rt as nat, 11);
            lemma_mod_multiples_vanish(1, 0 - gg, 11);
            assert(11 * 1 + (0 - gg) == 11 - gg);
            lemma_cong_sub(0, gg, 0, kk * (a - b), 11);
            assert(0 - (kk * (a - b)) == kk2 * (b - a)) by (nonlinear_arith)
                requires
                    kk == (da * db) * ((a - b) * (a - b)),
                    kk2 == (db * da) * ((b - a) * (b - a)),
            ;
            lemma_mod_twice(0 - (kk * (a - b)), 11);
        }
        assert(kk2 * (b - a) == (((e2 - c[i2]) * (e1 - c[i1])) * ((i2 - i1) * (i2 - i1))) * ((i2
            + 1) - (i1 + 1)));
    }
}

/// Exactly two digits of a clean word altered to different digits: the
/// decoder reports a double error, repairs the word back to the clean
/// one, and names the two 1-indexed positions with their magnitudes, in
/// one of the two orders.
pub proof fn lemma_double_error_decodes(c: Seq<u32>, i1: int, e1: u32, i2: int, e2: u32)
    requires
        clean_word(c),
        0 <= i1 < 10,
        0 <= i2 < 10,
        i1 != i2,
        e1 <= 9,
        e2 <= 9,
        e1 != c[i1],
        e2 != c[i2],
    ensures
        ({
            let w = word2(c, i1, e1, i2, e2);
            let d1 = (e1 - c[i1]) % 11;
            let d2 = (e2 - c[i2]) % 11;
            match spec_decode(w) {
                SpecOutcome::Double { word, pos1, pos2, mag1, mag2 } => word == c && ((pos1 == i1
                    + 1 && mag1 == d1 && pos2 == i2 + 1 && mag2 == d2) || (pos1 == i2 + 1 && mag1
                    == d2 && pos2 == i1 + 1 && mag2 == d1)),
                _ => false,
            }
        }),
{
    let w = word2(c, i1, e1, i2, e2);
    lemma_double_root_cases(c, i1, e1, i2, e2);
    let rt = min_mod_root(disc_of(w), 11);
    if rt % 11 == ((((e1 - c[i1]) * (e2 - c[i2])) * ((i1 - i2) * (i1 - i2))) * ((i1 + 1) - (i2
        + 1))) % 11 {
        lemma_double_branch_pins(c, w, i1, e1, i2, e2);
    } else {
        assert(w =~= word2(c, i2, e2, i1, e1));
        lemma_double_branch_pins(c, w, i2, e2, i1, e1);
    }
}


/// The defining property of a modular division result, recovered from the
/// divisor being invertible.
proof fn lemma_mod_div_prop(a: int, b: int)
    requires
        0 <= a < 11,
        0 <= b < 11,
        gcd(b as nat, 11) == 1,
    ensures
        0 <= mod_div(a, b, 11) < 11,
        (mod_div(a, b, 11) * b) % 11 == a,
{
    crate::arith::lemma_mod_div_exists(a, b, 11);
    let k = choose|k: int| 0 <= k < 11 && #[trigger] ((k * b) % 11) == a;
    lemma_mod_div_is(a, b, 11, k);
}

/// A word that the decoder repairs as a single error is repaired to a
/// clean word: decoding the repaired word finds no error.
pub proof fn lemma_single_redecode(d: Seq<u32>)
    requires
        d.len() == 10,
        is_digit_vals(d),
    ensures
        match spec_decode(d) {
            SpecOutcome::Single { word, pos, mag } => clean_word(word) && spec_decode(word)
                == SpecOutcome::Clean,
            _ => true,
        },
{
    let s0 = syndrome(d, 0);
    let s1 = syndrome(d, 1);
    let s2 = syndrome(d, 2);
    let s3 = syndrome(d, 3);
    let p = coeff_p(s0, s1, s2, s3);
    let q = coeff_q(s0, s1, s2, s3);
    let r = coeff_r(s0, s1, s2, s3);
    if spec_decode(d) is Single {
        assert(p == 0 && q == 0 && r == 0);
        assert(gcd(s0 as nat, 11) == 1 && s0 != 0);
        let pos = mod_div(s1, s0, 11);
        assert(pos != 0);
        lemma_mod_bound(wsum(syn_weight(0), ints_of(d)), 11);
        lemma_mod_bound(wsum(syn_weight(1), ints_of(d)), 11);
        lemma_mod_bound(wsum(syn_weight(2), ints_of(d)), 11);
        lemma_mod_bound(wsum(syn_weight(3), ints_of(d)), 11);
        lemma_mod_div_prop(s1, s0);
        assert((pos * s0) % 11 == s1);
        let i = pos - 1;
        let fixed = (d[i] - s0) % 11;
        assert(fixed <= 9);
        lemma_mod_bound(d[i] - s0, 11);
        let w = d.update(i, fixed as u32);
        // The syndromes match a single error of magnitude s0 at pos
        // exactly: the vanishing coefficients force the geometric shape.
        assert((s1 * s1) % 11 == (s0 * s2) % 11) by {
            lemma_sub_mod_noop(s1 * s1, s0 * s2, 11);
            lemma_mod_equivalence(s1 * s1, s0 * s2, 11);
            lemma_mod_twice(s1 * s1, 11);
            lemma_mod_twice(s0 * s2, 11);
            lemma_mod_bound(s1 * s1, 11);
            lemma_mod_bound(s0 * s2, 11);
        }
        assert((s0 * s3) % 11 == (s1 * s2) % 11) by {
            lemma_sub_mod_noop(s0 * s3, s1 * s2, 11);
            lemma_mod_equivalence(s0 * s3, s1 * s2, 11);
        }
        // s2 is congruent to pos^2 s0.
        assert(s2 % 11 == ((pos * pos) * s0) % 11) by {
            lemma_prod_cong(pos * s0, pos * s0, s1, s1);
            assert((pos * s0) * (pos * s0) == s0 * ((pos * pos) * s0)) by (nonlinear_arith);
            lemma_cancel11(s0, s2, (pos * pos) * s0);
            lemma_small_mod(s0 as nat, 11);
            lemma_mul_comm(s0, s2);
        }
        // s3 is congruent to pos^3 s0.
        assert(s3 % 11 == ((pos * pos * pos) * s0) % 11) by {
            lemma_prod_cong(s1, s2, pos * s0, (pos * pos) * s0);
            assert((pos * s0) * ((pos * pos) * s0) == s0 * ((pos * pos * pos) * s0))
                by (nonlinear_arith);
            lemma_small_mod(s0 as nat, 11);
            lemma_cancel11(s0, s3, (pos * pos * pos) * s0);
            lemma_mul_comm(s0, s3);
        }
        lemma_syn_weight_powers(i);
        // Each syndrome of the repaired word vanishes.
        assert forall|j: int| 0 <= j < 4 implies #[trigger] syndrome(w, j) == 0 by {
            lemma_syndrome_of_update(d, i, fixed as u32, j);
            let t = wsum(syn_weight(j), ints_of(d));
            let ww = syn_weight(j)[i];
            assert(syndrome(w, j) == (t + ww * (fixed - d[i])) % 11);
            assert(fixed % 11 == (d[i] - s0) % 11) by {
                lemma_mod_twice(d[i] - s0, 11);
            }
            lemma_cong_sub(fixed, d[i] as int, d[i] - s0, d[i] as int, 11);
            assert((fixed - d[i]) % 11 == (-s0) % 11) by {
                assert((d[i] - s0) - d[i] == -s0);
            }
            let pj: int = if j == 0 {
                1
            } else if j == 1 {
                pos
            } else if j == 2 {
                pos * pos
            } else {
                pos * pos * pos
            };
            assert(ww % 11 == pj % 11) by {
                lemma_mod_twice(pos * pos, 11);
                lemma_mod_twice(pos * pos * pos, 11);
                lemma_small_mod(1, 11);
                lemma_small_mod(pos as nat, 11);
            }
            assert((t + ww * (fixed - d[i])) % 11 == (s_geo(j, pos, s0) + pj * (-s0)) % 11) by {
                lemma_prod_cong(ww, fixed - d[i], pj, -s0);
                lemma_mod_twice(t, 11);
                assert(t % 11 == s_geo(j, pos, s0) % 11) by {
                    if j == 0 {
                        lemma_small_mod(s0 as nat, 11);
                        assert(s_geo(0, pos, s0) == 1 * s0);
                        assert(1 * s0 == s0);
                    } else if j == 1 {
                        lemma_mod_twice(pos * s0, 11);
                    } else if j == 2 {
                        lemma_mod_twice((pos * pos) * s0, 11);
                    } else {
                        lemma_mod_twice((pos * pos * pos) * s0, 11);
                    }
                }
                lemma_cong_add(t, ww * (fixed - d[i]), s_geo(j, pos, s0), pj * (-s0), 11);
            }
            assert(s_geo(j, pos, s0) + pj * (-s0) == 0) by (nonlinear_arith)
                requires
                    s_geo(j, pos, s0) == pj * s0,
            ;
            lemma_small_mod(0, 11);
        }
        assert(clean_word(w));
        assert(spec_decode(w) == SpecOutcome::Clean);
    }
}

/// The geometric shape a single error imposes on the syndromes.
pub open spec fn s_geo(j: int, pos: int, s0: int) -> int {
    if j == 0 {
        1 * s0
    } else if j == 1 {
        pos * s0
    } else if j == 2 {
        (pos * pos) * s0
    } else {
        (pos * pos * pos) * s0
    }
}

/// Commutativity of multiplication, stated for congruence chains.
proof fn lemma_mul_comm(x: int, y: int)
    ensures
        x * y == y * x,
{
}


/// The discriminant relation, unwrapped: the square of the root differs
/// from the square of the second coefficient by the product term.
#[verifier::rlimit(100)]
proof fn lemma_disc_unwrap(p: int, q: int, r: int, rt: int)
    requires
        (rt * rt) % 11 == ((q * q) % 11 - (((4 * p) % 11) * r) % 11) % 11,
    ensures
        (q * q - rt * rt) % 11 == ((4 * p) * r) % 11,
{
    lemma_mul_mod_noop_left(4 * p, r, 11);
    lemma_mod_bound((4 * p) * r, 11);
    lemma_mod_twice((4 * p) * r, 11);
    lemma_cong_sub(q * q, rt * rt, q * q, ((q * q) % 11 - (((4 * p) % 11) * r) % 11) % 11, 11);
    lemma_mod_twice((q * q) % 11 - (((4 * p) % 11) * r) % 11, 11);
    lemma_cong_sub((q * q) % 11, (((4 * p) % 11) * r) % 11, q * q, ((4 * p) % 11) * r, 11);
    lemma_mod_twice(q * q, 11);
    lemma_mod_twice(((4 * p) % 11) * r, 11);
    assert((q * q - (q * q - ((4 * p) % 11) * r)) == ((4 * p) % 11) * r);
    lemma_cong_sub(q * q, q * q - ((4 * p) % 11) * r, q * q, q * q - (4 * p) * r, 11);
    lemma_prod_cong((4 * p) % 11, r, 4 * p, r);
    lemma_mod_twice(4 * p, 11);
    lemma_cong_sub(q * q, ((4 * p) % 11) * r, q * q, (4 * p) * r, 11);
}

/// Vieta's sum: the sum of the decoded positions, scaled by the leading
/// coefficient, is congruent to the negated second coefficient.
#[verifier::rlimit(100)]
proof fn lemma_vieta_sum(p: int, q: int, rt: int, denom: int, pos1: int, pos2: int)
    requires
        0 <= p < 11,
        p != 0,
        denom == (2 * p) % 11,
        (pos1 * denom) % 11 == (rt - q) % 11,
        (pos2 * denom) % 11 == ((0 - q) % 11 - rt) % 11,
    ensures
        ((pos1 + pos2) * p) % 11 == (0 - q) % 11,
{
    lemma_small_mod(p as nat, 11);
    assert((pos1 * (2 * p)) % 11 == (rt - q) % 11) by {
        lemma_mul_mod_noop_right(pos1, 2 * p, 11);
    }
    assert((pos2 * (2 * p)) % 11 == ((0 - q) - rt) % 11) by {
        lemma_mul_mod_noop_right(pos2, 2 * p, 11);
        lemma_mod_twice(0 - q, 11);
        lemma_cong_sub((0 - q) % 11, rt, 0 - q, rt, 11);
    }
    lemma_cong_add(pos1 * (2 * p), pos2 * (2 * p), rt - q, (0 - q) - rt, 11);
    assert(pos1 * (2 * p) + pos2 * (2 * p) == 2 * ((pos1 + pos2) * p)) by (nonlinear_arith);
    assert((rt - q) + ((0 - q) - rt) == 2 * (0 - q));
    assert((2 * ((pos1 + pos2) * p)) % 11 == (2 * (0 - q)) % 11);
    lemma_small_mod(2, 11);
    lemma_cancel11(2, (pos1 + pos2) * p, 0 - q);
}

/// Vieta's product: the product of the decoded positions, scaled by the
/// leading coefficient, is congruent to the third coefficient.
#[verifier::rlimit(100)]
proof fn lemma_vieta_prod(
    p: int,
    q: int,
    r: int,
    rt: int,
    denom: int,
    pos1: int,
    pos2: int,
)
    requires
        0 <= p < 11,
        p != 0,
        denom == (2 * p) % 11,
        (rt * rt) % 11 == ((q * q) % 11 - (((4 * p) % 11) * r) % 11) % 11,
        (pos1 * denom) % 11 == (rt - q) % 11,
        (pos2 * denom) % 11 == ((0 - q) % 11 - rt) % 11,
    ensures
        ((pos1 * pos2) * p) % 11 == r % 11,
{
    lemma_small_mod(p as nat, 11);
    assert((pos1 * (2 * p)) % 11 == (rt - q) % 11) by {
        lemma_mul_mod_noop_right(pos1, 2 * p, 11);
    }
    assert((pos2 * (2 * p)) % 11 == ((0 - q) - rt) % 11) by {
        lemma_mul_mod_noop_right(pos2, 2 * p, 11);
        lemma_mod_twice(0 - q, 11);
        lemma_cong_sub((0 - q) % 11, rt, 0 - q, rt, 11);
    }
    lemma_prod_cong(pos1 * (2 * p), pos2 * (2 * p), rt - q, (0 - q) - rt);
    assert((rt - q) * ((0 - q) - rt) == q * q - rt * rt) by (nonlinear_arith);
    lemma_disc_unwrap(p, q, r, rt);
    assert((pos1 * (2 * p)) * (pos2 * (2 * p)) == (4 * p) * ((pos1 * pos2) * p))
        by (nonlinear_arith);
    assert(((4 * p) * ((pos1 * pos2) * p)) % 11 == ((4 * p) * r) % 11);
    assert((4 * p) % 11 != 0) by {
        lemma_small_mod(4, 11);
        lemma_nz_mul(4, p);
    }
    lemma_cancel11(4 * p, (pos1 * pos2) * p, r);
    lemma_mod_twice((pos1 * pos2) * p, 11);
}

/// Vieta's relations for the decoded positions: the sum and product of
/// the two positions, scaled by the leading coefficient, are congruent to
/// the other two coefficients.
proof fn lemma_vieta(
    p: int,
    q: int,
    r: int,
    rt: int,
    denom: int,
    pos1: int,
    pos2: int,
)
    requires
        0 <= p < 11,
        p != 0,
        denom == (2 * p) % 11,
        (rt * rt) % 11 == ((q * q) % 11 - (((4 * p) % 11) * r) % 11) % 11,
        (pos1 * denom) % 11 == (rt - q) % 11,
        (pos2 * denom) % 11 == ((0 - q) % 11 - rt) % 11,
    ensures
        ((pos1 + pos2) * p) % 11 == (0 - q) % 11,
        ((pos1 * pos2) * p) % 11 == r % 11,
{
    lemma_vieta_sum(p, q, rt, denom, pos1, pos2);
    lemma_vieta_prod(p, q, r, rt, denom, pos1, pos2);
}

/// Newton's step: the power sums of the decoded error pattern reproduce
/// the higher syndromes.
#[verifier::rlimit(100)]
proof fn lemma_newton(
    s0: int,
    s1: int,
    s2: int,
    s3: int,
    p: int,
    q: int,
    r: int,
    pos1: int,
    pos2: int,
    m1: int,
    m2: int,
)
    requires
        0 <= p < 11,
        p != 0,
        p % 11 == (s1 * s1 - s0 * s2) % 11,
        q % 11 == (s0 * s3 - s1 * s2) % 11,
        r % 11 == (s2 * s2 - s1 * s3) % 11,
        ((pos1 + pos2) * p) % 11 == (0 - q) % 11,
        ((pos1 * pos2) * p) % 11 == r % 11,
        (m1 + m2) % 11 == s0 % 11,
        (m1 * pos1 + m2 * pos2) % 11 == s1 % 11,
    ensures
        (m1 * (pos1 * pos1) + m2 * (pos2 * pos2)) % 11 == s2 % 11,
        (m1 * (pos1 * pos1 * pos1) + m2 * (pos2 * pos2 * pos2)) % 11 == s3 % 11,
{
    lemma_small_mod(p as nat, 11);
    let e1 = pos1 + pos2;
    let e2 = pos1 * pos2;
    let x0 = m1 + m2;
    let x1 = m1 * pos1 + m2 * pos2;
    let x2 = m1 * (pos1 * pos1) + m2 * (pos2 * pos2);
    let x3 = m1 * (pos1 * pos1 * pos1) + m2 * (pos2 * pos2 * pos2);
    // The Newton recurrences, by expanding into monomials.
    assert((pos1 + pos2) * (m1 * pos1 + m2 * pos2) == pos1 * (m1 * pos1) + pos1 * (m2 * pos2)
        + pos2 * (m1 * pos1) + pos2 * (m2 * pos2)) by (nonlinear_arith);
    assert((pos1 * pos2) * (m1 + m2) == pos2 * (m1 * pos1) + pos1 * (m2 * pos2))
        by (nonlinear_arith);
    assert(pos1 * (m1 * pos1) == m1 * (pos1 * pos1)) by (nonlinear_arith);
    assert(pos2 * (m2 * pos2) == m2 * (pos2 * pos2)) by (nonlinear_arith);
    assert(x2 == e1 * x1 - e2 * x0);
    assert((pos1 + pos2) * (m1 * (pos1 * pos1) + m2 * (pos2 * pos2)) == pos1 * (m1 * (pos1 * pos1))
        + pos1 * (m2 * (pos2 * pos2)) + pos2 * (m1 * (pos1 * pos1)) + pos2 * (m2 * (pos2 * pos2)))
        by (nonlinear_arith);
    assert((pos1 * pos2) * (m1 * pos1 + m2 * pos2) == pos2 * (m1 * (pos1 * pos1)) + pos1 * (m2
        * (pos2 * pos2))) by (nonlinear_arith);
    assert(pos1 * (m1 * (pos1 * pos1)) == m1 * (pos1 * pos1 * pos1)) by (nonlinear_arith);
    assert(pos2 * (m2 * (pos2 * pos2)) == m2 * (pos2 * pos2 * pos2)) by (nonlinear_arith);
    assert(x3 == e1 * x2 - e2 * x1);
    // Scale by p and replace each factor by its congruent value.
    assert(p * x2 == (e1 * p) * x1 - (e2 * p) * x0) by (nonlinear_arith)
        requires
            x2 == e1 * x1 - e2 * x0,
    ;
    assert(p * x3 == (e1 * p) * x2 - (e2 * p) * x1) by (nonlinear_arith)
        requires
            x3 == e1 * x2 - e2 * x1,
    ;
    // p x2 is congruent to p s2.
    assert((p * x2) % 11 == (p * s2) % 11) by {
        lemma_prod_cong(e1 * p, x1, 0 - q, s1);
        lemma_prod_cong(e2 * p, x0, r, s0);
        lemma_cong_sub((e1 * p) * x1, (e2 * p) * x0, (0 - q) * s1, r * s0, 11);
        lemma_prod_cong(0 - q, s1, 0 - (s0 * s3 - s1 * s2), s1);
        lemma_prod_cong(r, s0, s2 * s2 - s1 * s3, s0);
        lemma_cong_sub(
            (0 - q) * s1,
            r * s0,
            (0 - (s0 * s3 - s1 * s2)) * s1,
            (s2 * s2 - s1 * s3) * s0,
            11,
        );
        assert((0 - (s0 * s3 - s1 * s2)) * s1 == (s1 * s2) * s1 - (s0 * s3) * s1)
            by (nonlinear_arith);
        assert((s2 * s2 - s1 * s3) * s0 == (s2 * s2) * s0 - (s1 * s3) * s0) by (nonlinear_arith);
        assert((s1 * s2) * s1 == (s1 * s1) * s2) by (nonlinear_arith);
        assert((s0 * s3) * s1 == (s1 * s3) * s0) by (nonlinear_arith);
        assert((s2 * s2) * s0 == (s0 * s2) * s2) by (nonlinear_arith);
        assert((s1 * s1 - s0 * s2) * s2 == (s1 * s1) * s2 - (s0 * s2) * s2) by (nonlinear_arith);
        lemma_prod_cong(s1 * s1 - s0 * s2, s2, p, s2);
    }
    lemma_cancel11(p, x2, s2);
    // p x3 is congruent to p s3.
    assert((p * x3) % 11 == (p * s3) % 11) by {
        lemma_prod_cong(e1 * p, x2, 0 - q, s2);
        lemma_prod_cong(e2 * p, x1, r, s1);
        lemma_cong_sub((e1 * p) * x2, (e2 * p) * x1, (0 - q) * s2, r * s1, 11);
        lemma_prod_cong(0 - q, s2, 0 - (s0 * s3 - s1 * s2), s2);
        lemma_prod_cong(r, s1, s2 * s2 - s1 * s3, s1);
        lemma_cong_sub(
            (0 - q) * s2,
            r * s1,
            (0 - (s0 * s3 - s1 * s2)) * s2,
            (s2 * s2 - s1 * s3) * s1,
            11,
        );
        assert((0 - (s0 * s3 - s1 * s2)) * s2 == (s1 * s2) * s2 - (s0 * s3) * s2)
            by (nonlinear_arith);
        assert((s2 * s2 - s1 * s3) * s1 == (s2 * s2) * s1 - (s1 * s3) * s1) by (nonlinear_arith);
        assert((s1 * s2) * s2 == (s2 * s2) * s1) by (nonlinear_arith);
        assert((s0 * s3) * s2 == (s0 * s2) * s3 - ((s0 * s2) * s3 - (s0 * s3) * s2))
            by (nonlinear_arith);
        assert((s1 * s3) * s1 == (s1 * s1) * s3) by (nonlinear_arith);
        assert((s1 * s1 - s0 * s2) * s3 == (s1 * s1) * s3 - (s0 * s2) * s3) by (nonlinear_arith);
        assert((s0 * s2) * s3 == (s0 * s3) * s2) by (nonlinear_arith);
        lemma_prod_cong(s1 * s1 - s0 * s2, s3, p, s3);
    }
    lemma_cancel11(p, x3, s3);
}


/// A word repaired at two pinned positions with magnitudes matching the
/// syndromes' power sums has vanishing syndromes.
#[verifier::rlimit(100)]
proof fn lemma_repaired_word_clean(d: Seq<u32>, pos1: int, pos2: int, m1: int, m2: int)
    requires
        d.len() == 10,
        is_digit_vals(d),
        1 <= pos1 <= 10,
        1 <= pos2 <= 10,
        pos1 != pos2,
        (m1 + m2) % 11 == syndrome(d, 0) % 11,
        (m1 * pos1 + m2 * pos2) % 11 == syndrome(d, 1) % 11,
        (m1 * (pos1 * pos1) + m2 * (pos2 * pos2)) % 11 == syndrome(d, 2) % 11,
        (m1 * (pos1 * pos1 * pos1) + m2 * (pos2 * pos2 * pos2)) % 11 == syndrome(d, 3) % 11,
    ensures
        ({
            let c1 = (d[pos1 - 1] - m1) % 11;
            let c2 = (d[pos2 - 1] - m2) % 11;
            let w = d.update(pos1 - 1, c1 as u32).update(pos2 - 1, c2 as u32);
            forall|j: int| 0 <= j < 4 ==> #[trigger] syndrome(w, j) == 0
        }),
{
    let c1 = (d[pos1 - 1] - m1) % 11;
    let c2 = (d[pos2 - 1] - m2) % 11;
    let mid = d.update(pos1 - 1, c1 as u32);
    let w = mid.update(pos2 - 1, c2 as u32);
    lemma_mod_bound(d[pos1 - 1] - m1, 11);
    lemma_mod_bound(d[pos2 - 1] - m2, 11);
    lemma_syn_weight_powers(pos1 - 1);
    lemma_syn_weight_powers(pos2 - 1);
    assert forall|j: int| 0 <= j < 4 implies #[trigger] syndrome(w, j) == 0 by {
        assert(ints_of(mid) =~= ints_of(d).update(pos1 - 1, c1 as int));
        lemma_wsum_update(syn_weight(j), ints_of(d), pos1 - 1, c1 as int);
        assert(ints_of(w) =~= ints_of(mid).update(pos2 - 1, c2 as int));
        lemma_wsum_update(syn_weight(j), ints_of(mid), pos2 - 1, c2 as int);
        assert(mid[pos2 - 1] == d[pos2 - 1]);
        let t = wsum(syn_weight(j), ints_of(d));
        let w1 = syn_weight(j)[pos1 - 1];
        let w2 = syn_weight(j)[pos2 - 1];
        assert(wsum(syn_weight(j), ints_of(w)) == t + (w1 * (c1 - d[pos1 - 1]) + w2 * (c2 - d[pos2
            - 1])));
        let pj1: int = if j == 0 {
            1
        } else if j == 1 {
            pos1
        } else if j == 2 {
            pos1 * pos1
        } else {
            pos1 * pos1 * pos1
        };
        let pj2: int = if j == 0 {
            1
        } else if j == 1 {
            pos2
        } else if j == 2 {
            pos2 * pos2
        } else {
            pos2 * pos2 * pos2
        };
        assert(w1 % 11 == pj1 % 11 && w2 % 11 == pj2 % 11) by {
            lemma_mod_twice(pos1 * pos1, 11);
            lemma_mod_twice(pos1 * pos1 * pos1, 11);
            lemma_mod_twice(pos2 * pos2, 11);
            lemma_mod_twice(pos2 * pos2 * pos2, 11);
            lemma_small_mod(1, 11);
            lemma_small_mod(pos1 as nat, 11);
            lemma_small_mod(pos2 as nat, 11);
        }
        assert((c1 - d[pos1 - 1]) % 11 == (0 - m1) % 11) by {
            lemma_mod_twice(d[pos1 - 1] - m1, 11);
            lemma_cong_sub(c1, d[pos1 - 1] as int, d[pos1 - 1] - m1, d[pos1 - 1] as int, 11);
        }
        assert((c2 - d[pos2 - 1]) % 11 == (0 - m2) % 11) by {
            lemma_mod_twice(d[pos2 - 1] - m2, 11);
            lemma_cong_sub(c2, d[pos2 - 1] as int, d[pos2 - 1] - m2, d[pos2 - 1] as int, 11);
        }
        let sj = syndrome(d, j);
        let xj = if j == 0 {
            m1 + m2
        } else if j == 1 {
            m1 * pos1 + m2 * pos2
        } else if j == 2 {
            m1 * (pos1 * pos1) + m2 * (pos2 * pos2)
        } else {
            m1 * (pos1 * pos1 * pos1) + m2 * (pos2 * pos2 * pos2)
        };
        assert(xj % 11 == sj % 11);
        assert(syndrome(w, j) == (t + (w1 * (c1 - d[pos1 - 1]) + w2 * (c2 - d[pos2 - 1]))) % 11);
        assert((t + (w1 * (c1 - d[pos1 - 1]) + w2 * (c2 - d[pos2 - 1]))) % 11 == (sj + (pj1 * (0
            - m1) + pj2 * (0 - m2))) % 11) by {
            lemma_mod_twice(t, 11);
            lemma_prod_cong(w1, c1 - d[pos1 - 1], pj1, 0 - m1);
            lemma_prod_cong(w2, c2 - d[pos2 - 1], pj2, 0 - m2);
            lemma_cong_add(
                w1 * (c1 - d[pos1 - 1]),
                w2 * (c2 - d[pos2 - 1]),
                pj1 * (0 - m1),
                pj2 * (0 - m2),
                11,
            );
            lemma_cong_add(
                t,
                w1 * (c1 - d[pos1 - 1]) + w2 * (c2 - d[pos2 - 1]),
                sj,
                pj1 * (0 - m1) + pj2 * (0 - m2),
                11,
            );
        }
        assert(pj1 * (0 - m1) + pj2 * (0 - m2) == 0 - (m1 * pj1 + m2 * pj2)) by (nonlinear_arith);
        assert(m1 * pj1 + m2 * pj2 == xj) by {
            if j == 1 {
                assert(m1 * pj1 == m1 * pos1 && m2 * pj2 == m2 * pos2);
            }
        }
        assert((sj + (0 - xj)) % 11 == 0) by {
            lemma_mod_equivalence(sj, xj, 11);
            assert(sj - xj == sj + (0 - xj));
        }
    }
}

/// What the double branch of the decoder pins down, read back from a
/// word it declares doubly corrupted: the verdict's fields, their ranges,
/// and the four power-sum congruences that tie the magnitudes and
/// positions to the syndromes.
#[verifier::rlimit(100)]
proof fn lemma_double_redecode_facts(d: Seq<u32>)
    requires
        d.len() == 10,
        is_digit_vals(d),
        spec_decode(d) is Double,
    ensures
        ({
            let s0 = syndrome(d, 0);
            let s1 = syndrome(d, 1);
            let s2 = syndrome(d, 2);
            let s3 = syndrome(d, 3);
            let p = coeff_p(s0, s1, s2, s3);
            let q = coeff_q(s0, s1, s2, s3);
            let rt = min_mod_root(((q * q) % 11 - (((4 * p) % 11) * coeff_r(s0, s1, s2, s3)) % 11)
                % 11, 11);
            let denom = (2 * p) % 11;
            let pos1 = mod_div((rt - q) % 11, denom, 11);
            let pos2 = mod_div(((0 - q) % 11 - rt) % 11, denom, 11);
            let m2 = mod_div(((pos1 * s0) % 11 - s1) % 11, (pos1 - pos2) % 11, 11);
            let m1 = (s0 - m2) % 11;
            let c1 = (d[pos1 - 1] - m1) % 11;
            let c2 = (d[pos2 - 1] - m2) % 11;
            &&& 1 <= pos1 <= 10
            &&& 1 <= pos2 <= 10
            &&& pos1 != pos2
            &&& 0 <= m1 < 11
            &&& 0 <= m2 < 11
            &&& c1 <= 9
            &&& c2 <= 9
            &&& (m1 + m2) % 11 == s0 % 11
            &&& (m1 * pos1 + m2 * pos2) % 11 == s1 % 11
            &&& (m1 * (pos1 * pos1) + m2 * (pos2 * pos2)) % 11 == s2 % 11
            &&& (m1 * (pos1 * pos1 * pos1) + m2 * (pos2 * pos2 * pos2)) % 11 == s3 % 11
            &&& spec_decode(d) == (SpecOutcome::Double {
                word: d.update(pos1 - 1, c1 as u32).update(pos2 - 1, c2 as u32),
                pos1: pos1,
                pos2: pos2,
                mag1: m1,
                mag2: m2,
            })
        }),
{
    let s0 = syndrome(d, 0);
    let s1 = syndrome(d, 1);
    let s2 = syndrome(d, 2);
    let s3 = syndrome(d, 3);
    let p = coeff_p(s0, s1, s2, s3);
    let q = coeff_q(s0, s1, s2, s3);
    let r = coeff_r(s0, s1, s2, s3);
    lemma_mod_bound((s1 * s1) % 11 - (s0 * s2) % 11, 11);
    lemma_mod_bound((s0 * s3) % 11 - (s1 * s2) % 11, 11);
    lemma_mod_bound((s2 * s2) % 11 - (s1 * s3) % 11, 11);
    lemma_mod_bound(wsum(syn_weight(0), ints_of(d)), 11);
    lemma_mod_bound(wsum(syn_weight(1), ints_of(d)), 11);
    lemma_mod_bound(wsum(syn_weight(2), ints_of(d)), 11);
    lemma_mod_bound(wsum(syn_weight(3), ints_of(d)), 11);
    let disc = ((q * q) % 11 - (((4 * p) % 11) * r) % 11) % 11;
    assert(has_mod_root(disc, 11));
    let x0w = choose|x: int| #[trigger] is_mod_root(x, disc, 11);
    lemma_min_root_exists(disc, 11, x0w);
    let rt = min_mod_root(disc, 11);
    let denom = (2 * p) % 11;
    assert(gcd(denom as nat, 11) == 1 && denom != 0);
    assert(p != 0) by {
        if p == 0 {
            lemma_small_mod(0, 11);
            assert(denom == 0);
        }
    }
    lemma_mod_bound(rt - q, 11);
    lemma_mod_bound((0 - q) % 11 - rt, 11);
    let pos1 = mod_div((rt - q) % 11, denom, 11);
    let pos2 = mod_div(((0 - q) % 11 - rt) % 11, denom, 11);
    lemma_mod_div_prop((rt - q) % 11, denom);
    lemma_mod_div_prop(((0 - q) % 11 - rt) % 11, denom);
    assert(pos1 != 0 && pos2 != 0);
    let dd = (pos1 - pos2) % 11;
    assert(gcd(dd as nat, 11) == 1 && dd != 0);
    lemma_mod_bound((pos1 * s0) % 11 - s1, 11);
    let m2 = mod_div(((pos1 * s0) % 11 - s1) % 11, dd, 11);
    lemma_mod_div_prop(((pos1 * s0) % 11 - s1) % 11, dd);
    let m1 = (s0 - m2) % 11;
    lemma_mod_bound(s0 - m2, 11);
    let c1 = (d[pos1 - 1] - m1) % 11;
    let c2 = (d[pos2 - 1] - m2) % 11;
    assert(c1 <= 9 && c2 <= 9);
    assert(pos1 != pos2) by {
        if pos1 == pos2 {
            lemma_small_mod(0, 11);
        }
    }
    // Vieta's relations from the two position divisions.
    assert((rt * rt) % 11 == disc);
    lemma_vieta(p, q, r, rt, denom, pos1, pos2);
    // The magnitude division, in congruence form.
    assert((m2 * (pos1 - pos2)) % 11 == (pos1 * s0 - s1) % 11) by {
        lemma_mod_twice(pos1 - pos2, 11);
        lemma_prod_cong(m2, dd, m2, pos1 - pos2);
        lemma_mod_twice((pos1 * s0) % 11 - s1, 11);
        lemma_cong_sub((pos1 * s0) % 11, s1, pos1 * s0, s1, 11);
        lemma_mod_twice(pos1 * s0, 11);
        lemma_mod_twice(s1, 11);
    }
    // The zeroth and first power sums.
    assert((m1 + m2) % 11 == s0 % 11) by {
        lemma_mod_twice(s0 - m2, 11);
        lemma_cong_add(m1, m2, s0 - m2, m2, 11);
        lemma_mod_twice(s0, 11);
    }
    assert((m1 * pos1 + m2 * pos2) % 11 == s1 % 11) by {
        lemma_mod_twice(s0 - m2, 11);
        lemma_prod_cong(m1, pos1, s0 - m2, pos1);
        lemma_cong_add(m1 * pos1, m2 * pos2, (s0 - m2) * pos1, m2 * pos2, 11);
        assert((s0 - m2) * pos1 + m2 * pos2 == pos1 * s0 - m2 * (pos1 - pos2))
            by (nonlinear_arith);
        lemma_cong_sub(pos1 * s0, m2 * (pos1 - pos2), pos1 * s0, pos1 * s0 - s1, 11);
        lemma_mod_twice(pos1 * s0 - s1, 11);
        lemma_mod_twice(pos1 * s0, 11);
        lemma_mod_twice(s1, 11);
        assert(pos1 * s0 - (pos1 * s0 - s1) == s1);
    }
    // The coefficients in congruence form, then Newton's identities.
    assert(p % 11 == (s1 * s1 - s0 * s2) % 11) by {
        lemma_mod_twice((s1 * s1) % 11 - (s0 * s2) % 11, 11);
        lemma_sub_mod_noop(s1 * s1, s0 * s2, 11);
    }
    assert(q % 11 == (s0 * s3 - s1 * s2) % 11) by {
        lemma_mod_twice((s0 * s3) % 11 - (s1 * s2) % 11, 11);
        lemma_sub_mod_noop(s0 * s3, s1 * s2, 11);
    }
    assert(r % 11 == (s2 * s2 - s1 * s3) % 11) by {
        lemma_mod_twice((s2 * s2) % 11 - (s1 * s3) % 11, 11);
        lemma_sub_mod_noop(s2 * s2, s1 * s3, 11);
    }
    lemma_newton(s0, s1, s2, s3, p, q, r, pos1, pos2, m1, m2);
    lemma_mod_twice(s2, 11);
    lemma_mod_twice(s3, 11);
}

/// A word that the decoder repairs as a double error is repaired to a
/// clean word: decoding the repaired word finds no error.
pub proof fn lemma_double_redecode(d: Seq<u32>)
    requires
        d.len() == 10,
        is_digit_vals(d),
    ensures
        match spec_decode(d) {
            SpecOutcome::Double { word, pos1, pos2, mag1, mag2 } => clean_word(word)
                && spec_decode(word) == SpecOutcome::Clean,
            _ => true,
        },
{
    if spec_decode(d) is Double {
        lemma_double_redecode_facts(d);
        let s0 = syndrome(d, 0);
        let s1 = syndrome(d, 1);
        let s2 = syndrome(d, 2);
        let s3 = syndrome(d, 3);
        let p = coeff_p(s0, s1, s2, s3);
        let q = coeff_q(s0, s1, s2, s3);
        let rt = min_mod_root(((q * q) % 11 - (((4 * p) % 11) * coeff_r(s0, s1, s2, s3)) % 11)
            % 11, 11);
        let denom = (2 * p) % 11;
        let pos1 = mod_div((rt - q) % 11, denom, 11);
        let pos2 = mod_div(((0 - q) % 11 - rt) % 11, denom, 11);
        let m2 = mod_div(((pos1 * s0) % 11 - s1) % 11, (pos1 - pos2) % 11, 11);
        let m1 = (s0 - m2) % 11;
        let c1 = (d[pos1 - 1] - m1) % 11;
        let c2 = (d[pos2 - 1] - m2) % 11;
        let w = d.update(pos1 - 1, c1 as u32).update(pos2 - 1, c2 as u32);
        lemma_repaired_word_clean(d, pos1, pos2, m1, m2);
        assert(clean_word(w));
        assert(spec_decode(w) == SpecOutcome::Clean);
    }
}

} // verus!
