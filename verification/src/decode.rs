//! The error decoder of the (10,6) code.  From the four syndromes of a
//! received word it classifies the corruption as absent, single, double,
//! or beyond repair, and computes the corrections, solving a quadratic
//! over the residues modulo 11 in the double case.
//!
//! The whole decision is mirrored, step for step, by the specification
//! function [`spec_decode`], against which the executable decoder and the
//! decoding laws are stated.

use vstd::prelude::*;

verus! {

use crate::arith::{gcd, mod_div, has_mod_root, min_mod_root};
use crate::digits::is_digit_vals;
use crate::hamming::{syndrome, syn_row, row_digit, lemma_syn_row_fits};
use crate::modular::Modular;
use vstd::arithmetic::div_mod::lemma_small_mod;

/// Why a received word was judged to hold more errors than the code can
/// repair.
#[derive(Debug, Copy, Clone, PartialEq, Eq, Structural)]
pub enum TripleErrorReason {
    DivisionError,
    ErrorAtPositionZero,
    NoValidRoots,
    ValueCorrectedToTen,
}

/// The decoder's verdict on a ten-digit word, at the specification level.
pub enum SpecOutcome {
    /// All four syndromes vanish: the word is taken as error-free.
    Clean,
    /// One digit was corrupted; `word` is the repaired word, `pos` the
    /// 1-indexed position and `mag` the residue that was subtracted.
    Single { word: Seq<u32>, pos: int, mag: int },
    /// Two digits were corrupted, at `pos1` and `pos2`, with magnitudes
    /// `mag1` and `mag2` respectively.
    Double { word: Seq<u32>, pos1: int, pos2: int, mag1: int, mag2: int },
    /// The corruption exceeds the code's two-error capacity.
    Reject { reason: TripleErrorReason },
}

/// The first error-locator coefficient, from reduced syndromes.
pub open spec fn coeff_p(s0: int, s1: int, s2: int, s3: int) -> int {
    ((s1 * s1) % 11 - (s0 * s2) % 11) % 11
}

/// The second error-locator coefficient.
pub open spec fn coeff_q(s0: int, s1: int, s2: int, s3: int) -> int {
    ((s0 * s3) % 11 - (s1 * s2) % 11) % 11
}

/// The third error-locator coefficient.
pub open spec fn coeff_r(s0: int, s1: int, s2: int, s3: int) -> int {
    ((s2 * s2) % 11 - (s1 * s3) % 11) % 11
}

/// The single-error branch: the position is the ratio of the first two
/// syndromes, the magnitude the zeroth syndrome.
pub open spec fn spec_decode_single(d: Seq<u32>, s0: int, s1: int) -> SpecOutcome {
    if gcd(s0 as nat, 11) != 1 || s0 == 0 {
        SpecOutcome::Reject { reason: TripleErrorReason::DivisionError }
    } else {
        let pos = mod_div(s1, s0, 11);
        if pos == 0 {
            SpecOutcome::Reject { reason: TripleErrorReason::ErrorAtPositionZero }
        } else {
            let fixed = (d[pos - 1] - s0) % 11;
            if fixed > 9 {
                SpecOutcome::Reject { reason: TripleErrorReason::ValueCorrectedToTen }
            } else {
                SpecOutcome::Single { word: d.update(pos - 1, fixed as u32), pos, mag: s0 }
            }
        }
    }
}

/// The double-error branch: the two positions are the roots of the
/// quadratic with coefficients P, Q, R, found through its discriminant.
pub open spec fn spec_decode_double(
    d: Seq<u32>,
    s0: int,
    s1: int,
    p: int,
    q: int,
    r: int,
) -> SpecOutcome {
    let disc = ((q * q) % 11 - (((4 * p) % 11) * r) % 11) % 11;
    if !has_mod_root(disc, 11) {
        SpecOutcome::Reject { reason: TripleErrorReason::NoValidRoots }
    } else {
        spec_double_with_root(d, s0, s1, p, q, min_mod_root(disc, 11))
    }
}

/// The double-error branch once the root of the discriminant is in hand.
pub open spec fn spec_double_with_root(
    d: Seq<u32>,
    s0: int,
    s1: int,
    p: int,
    q: int,
    root: int,
) -> SpecOutcome {
    let denom = (2 * p) % 11;
    if gcd(denom as nat, 11) != 1 || denom == 0 {
        SpecOutcome::Reject { reason: TripleErrorReason::DivisionError }
    } else {
        let pos1 = mod_div((root - q) % 11, denom, 11);
        let pos2 = mod_div(((0 - q) % 11 - root) % 11, denom, 11);
        if pos1 == 0 || pos2 == 0 {
            SpecOutcome::Reject { reason: TripleErrorReason::ErrorAtPositionZero }
        } else {
            spec_double_with_positions(d, s0, s1, pos1, pos2)
        }
    }
}

/// The double-error branch once the two positions are in hand.
pub open spec fn spec_double_with_positions(
    d: Seq<u32>,
    s0: int,
    s1: int,
    pos1: int,
    pos2: int,
) -> SpecOutcome {
    let dd = (pos1 - pos2) % 11;
    if gcd(dd as nat, 11) != 1 || dd == 0 {
        SpecOutcome::Reject { reason: TripleErrorReason::DivisionError }
    } else {
        let mag2 = mod_div(((pos1 * s0) % 11 - s1) % 11, dd, 11);
        let mag1 = (s0 - mag2) % 11;
        let c1 = (d[pos1 - 1] - mag1) % 11;
        let c2 = (d[pos2 - 1] - mag2) % 11;
        if c1 > 9 || c2 > 9 {
            SpecOutcome::Reject { reason: TripleErrorReason::ValueCorrectedToTen }
        } else {
            SpecOutcome::Double {
                word: d.update(pos1 - 1, c1 as u32).update(pos2 - 1, c2 as u32),
                pos1,
                pos2,
                mag1,
                mag2,
            }
        }
    }
}

/// The decoder's verdict on a ten-digit word: the reference description
/// of decoding, one deterministic pass over the syndromes.
pub open spec fn spec_decode(d: Seq<u32>) -> SpecOutcome
    recommends
        d.len() == 10,
        is_digit_vals(d),
{
    let s0 = syndrome(d, 0);
    let s1 = syndrome(d, 1);
    let s2 = syndrome(d, 2);
    let s3 = syndrome(d, 3);
    if s0 == 0 && s1 == 0 && s2 == 0 && s3 == 0 {
        SpecOutcome::Clean
    } else {
        let p = coeff_p(s0, s1, s2, s3);
        let q = coeff_q(s0, s1, s2, s3);
        let r = coeff_r(s0, s1, s2, s3);
        if p == 0 && q == 0 && r == 0 {
            spec_decode_single(d, s0, s1)
        } else {
            spec_decode_double(d, s0, s1, p, q, r)
        }
    }
}

/// The decoder's verdict as executable data.
pub enum Decoded {
    Clean,
    Single(Vec<u32>, u32, u32),
    Double(Vec<u32>, (u32, u32), (u32, u32)),
    Reject(TripleErrorReason),
}

/// What a `Decoded` verdict says, read back at the specification level.
pub open spec fn decoded_abs(r: Decoded) -> SpecOutcome {
    match r {
        Decoded::Clean => SpecOutcome::Clean,
        Decoded::Single(w, pos, mag) => SpecOutcome::Single {
            word: w@,
            pos: pos as int,
            mag: mag as int,
        },
        Decoded::Double(w, pos, mag) => SpecOutcome::Double {
            word: w@,
            pos1: pos.0 as int,
            pos2: pos.1 as int,
            mag1: mag.0 as int,
            mag2: mag.1 as int,
        },
        Decoded::Reject(t) => SpecOutcome::Reject { reason: t },
    }
}

/// An element-for-element copy of a digit word.
fn copy_word(d: &Vec<u32>) -> (r: Vec<u32>)
    ensures
        r@ == d@,
{
    let mut r: Vec<u32> = Vec::new();
    let mut i: usize = 0;
    while i < d.len()
        invariant
            0 <= i <= d@.len(),
            r@ == d@.take(i as int),
        decreases d@.len() - i,
    {
        r.push(d[i]);
        proof {
            assert(r@ =~= d@.take(i as int + 1));
        }
        i = i + 1;
    }
    proof {
        assert(d@.take(d@.len() as int) =~= d@);
    }
    r
}

/// Decodes a parsed ten-digit word, returning exactly the verdict of
/// [`spec_decode`].
#[verifier::loop_isolation(false)]
pub(crate) fn decode_digits(d: &Vec<u32>) -> (r: Decoded)
    requires
        d@.len() == 10,
        is_digit_vals(d@),
    ensures
        decoded_abs(r) == spec_decode(d@),
        match r {
            Decoded::Clean => true,
            Decoded::Single(w, pos, mag) => w@.len() == 10 && is_digit_vals(w@) && 1 <= pos <= 10
                && mag < 11,
            Decoded::Double(w, pos, mag) => w@.len() == 10 && is_digit_vals(w@) && 1 <= pos.0 <= 10
                && 1 <= pos.1 <= 10 && pos.0 != pos.1 && mag.0 < 11 && mag.1 < 11,
            Decoded::Reject(_) => true,
        },
{
    let mut sv: Vec<u32> = Vec::new();
    let mut j: usize = 0;
    while j < 4
        invariant
            0 <= j <= 4,
            sv@.len() == j,
            forall|i: int| 0 <= i < j ==> #[trigger] sv@[i] as int == syndrome(d@, i),
        decreases 4 - j,
    {
        let row = syn_row(j);
        proof {
            lemma_syn_row_fits(j as int);
        }
        let s = row_digit(&row, d);
        sv.push(s);
        j = j + 1;
    }
    proof {
        vstd::arithmetic::div_mod::lemma_mod_bound(
            crate::hamming::wsum(crate::hamming::syn_weight(0), crate::digits::ints_of(d@)),
            11,
        );
    }
    if sv[0] == 0 && sv[1] == 0 && sv[2] == 0 && sv[3] == 0 {
        return Decoded::Clean;
    }
    let s0 = Modular::new(sv[0] as i32, 11);
    let s1 = Modular::new(sv[1] as i32, 11);
    let s2 = Modular::new(sv[2] as i32, 11);
    let s3 = Modular::new(sv[3] as i32, 11);
    proof {
        lemma_small_mod(sv@[0] as nat, 11);
        lemma_small_mod(sv@[1] as nat, 11);
        lemma_small_mod(sv@[2] as nat, 11);
        lemma_small_mod(sv@[3] as nat, 11);
    }
    let ghost gs0 = syndrome(d@, 0);
    let ghost gs1 = syndrome(d@, 1);
    let ghost gs2 = syndrome(d@, 2);
    let ghost gs3 = syndrome(d@, 3);
    let p = s1.mul(s1).sub(s0.mul(s2));
    let q = s0.mul(s3).sub(s1.mul(s2));
    let rr = s2.mul(s2).sub(s1.mul(s3));
    proof {
        assert(p.val() == coeff_p(gs0, gs1, gs2, gs3));
        assert(q.val() == coeff_q(gs0, gs1, gs2, gs3));
        assert(rr.val() == coeff_r(gs0, gs1, gs2, gs3));
    }
    if p.value() == 0 && q.value() == 0 && rr.value() == 0 {
        // One corrupted digit, or a pattern indistinguishable from one.
        let posm = match s1.try_div(s0) {
            Ok(x) => x,
            Err(_) => {
                return Decoded::Reject(TripleErrorReason::DivisionError);
            },
        };
        if posm.value() == 0 {
            return Decoded::Reject(TripleErrorReason::ErrorAtPositionZero);
        }
        let pos = posm.value() as usize;
        let fixed = Modular::new(d[pos - 1] as i32, 11).sub(s0);
        proof {
            lemma_small_mod(d@[pos as int - 1] as nat, 11);
        }
        if fixed.value() > 9 {
            return Decoded::Reject(TripleErrorReason::ValueCorrectedToTen);
        }
        let mut w = copy_word(d);
        w.set(pos - 1, fixed.value() as u32);
        proof {
            assert(w@ =~= d@.update(posm.val() - 1, ((d@[posm.val() - 1] - gs0) % 11) as u32));
        }
        return Decoded::Single(w, posm.value() as u32, s0.value() as u32);
    }
    // Two corrupted digits: solve the quadratic through its discriminant.
    let four = Modular::new(4, 11);
    let disc = q.mul(q).sub(four.mul(p).mul(rr));
    let root = match disc.sqrt() {
        Ok(x) => x,
        Err(_) => {
            return Decoded::Reject(TripleErrorReason::NoValidRoots);
        },
    };
    let two = Modular::new(2, 11);
    let denom = two.mul(p);
    let pos1m = match root.sub(q).try_div(denom) {
        Ok(x) => x,
        Err(_) => {
            return Decoded::Reject(TripleErrorReason::DivisionError);
        },
    };
    let zero = Modular::new(0, 11);
    let pos2m = match zero.sub(q).sub(root).try_div(denom) {
        Ok(x) => x,
        Err(_) => vstd::pervasive::unreached(),
    };
    if pos1m.value() == 0 || pos2m.value() == 0 {
        return Decoded::Reject(TripleErrorReason::ErrorAtPositionZero);
    }
    let ddm = pos1m.sub(pos2m);
    let mag2m = match pos1m.mul(s0).sub(s1).try_div(ddm) {
        Ok(x) => x,
        Err(_) => {
            return Decoded::Reject(TripleErrorReason::DivisionError);
        },
    };
    let mag1m = s0.sub(mag2m);
    let pos1 = pos1m.value() as usize;
    let pos2 = pos2m.value() as usize;
    let c1 = Modular::new(d[pos1 - 1] as i32, 11).sub(mag1m);
    let c2 = Modular::new(d[pos2 - 1] as i32, 11).sub(mag2m);
    proof {
        lemma_small_mod(d@[pos1 as int - 1] as nat, 11);
        lemma_small_mod(d@[pos2 as int - 1] as nat, 11);
    }
    if c1.value() > 9 || c2.value() > 9 {
        return Decoded::Reject(TripleErrorReason::ValueCorrectedToTen);
    }
    let mut w = copy_word(d);
    w.set(pos1 - 1, c1.value() as u32);
    w.set(pos2 - 1, c2.value() as u32);
    proof {
        assert(w@ =~= d@.update(pos1m.val() - 1, ((d@[pos1m.val() - 1] - mag1m.val()) % 11) as u32)
            .update(pos2m.val() - 1, ((d@[pos2m.val() - 1] - mag2m.val()) % 11) as u32));
        assert(pos1m.val() != pos2m.val());
    }
    Decoded::Double(
        w,
        (pos1m.value() as u32, pos2m.value() as u32),
        (mag1m.value() as u32, mag2m.value() as u32),
    )
}

} // verus!
