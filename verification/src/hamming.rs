//! The weight tables of the (10,6) code and the weighted checksums built
//! on them: check-digit generation for a six-digit payload and syndrome
//! calculation for a ten-digit received word, everything reduced modulo
//! 11.

use vstd::prelude::*;

verus! {

use crate::digits::{
    all_digit_chars, chars_digits, char_of_digit, dec_str, digit_str, ints_of, is_digit_vals,
    nines, parse_digits, usize_to_string,
};
use vstd::arithmetic::mul::{lemma_mul_inequality, lemma_mul_is_distributive_sub_other_way};

/// The weighted sum of a word `d` under a weight row `w`: the sum of the
/// products of corresponding elements.
pub open spec fn wsum(w: Seq<int>, d: Seq<int>) -> int
    recommends
        w.len() == d.len(),
    decreases w.len(),
{
    if w.len() == 0 {
        0
    } else {
        wsum(w.drop_last(), d.drop_last()) + w.last() * d.last()
    }
}

/// The four weight rows of the check-digit generator, one per derived
/// digit of a six-digit payload.
pub open spec fn enc_weight(k: int) -> Seq<int> {
    if k == 0 {
        seq![4, 10, 9, 2, 1, 7]
    } else if k == 1 {
        seq![7, 8, 7, 1, 9, 6]
    } else if k == 2 {
        seq![9, 1, 7, 8, 7, 7]
    } else {
        seq![1, 2, 9, 10, 4, 1]
    }
}

/// The four weight rows of the syndrome calculator: the j-th powers of
/// the positions 1 through 10, reduced modulo 11.
pub open spec fn syn_weight(j: int) -> Seq<int> {
    if j == 0 {
        seq![1, 1, 1, 1, 1, 1, 1, 1, 1, 1]
    } else if j == 1 {
        seq![1, 2, 3, 4, 5, 6, 7, 8, 9, 10]
    } else if j == 2 {
        seq![1, 4, 9, 5, 3, 3, 5, 9, 4, 1]
    } else {
        seq![1, 8, 5, 9, 4, 7, 2, 6, 3, 10]
    }
}

/// The k-th check digit of a six-digit payload.
pub open spec fn check_digit(p: Seq<u32>, k: int) -> int {
    wsum(enc_weight(k), ints_of(p)) % 11
}

/// The j-th syndrome of a ten-digit received word.
pub open spec fn syndrome(d: Seq<u32>, j: int) -> int {
    wsum(syn_weight(j), ints_of(d)) % 11
}

/// The four check digits of a payload, written as characters.
pub open spec fn check_chars4(d: Seq<u32>) -> Seq<char> {
    Seq::new(4, |k: int| char_of_digit(check_digit(d, k)))
}

/// Extending both prefixes by one position adds one product to the
/// weighted sum.
pub proof fn lemma_wsum_take_succ(w: Seq<int>, d: Seq<int>, i: int)
    requires
        w.len() == d.len(),
        0 <= i < w.len(),
    ensures
        wsum(w.take(i + 1), d.take(i + 1)) == wsum(w.take(i), d.take(i)) + w[i] * d[i],
{
    assert(w.take(i + 1).drop_last() =~= w.take(i));
    assert(d.take(i + 1).drop_last() =~= d.take(i));
}

/// Elementwise bounds give a bound on the whole weighted sum.
pub proof fn lemma_wsum_bound(w: Seq<int>, d: Seq<int>, wb: int, db: int)
    requires
        w.len() == d.len(),
        forall|i: int| 0 <= i < w.len() ==> 0 <= #[trigger] w[i] <= wb,
        forall|i: int| 0 <= i < d.len() ==> 0 <= #[trigger] d[i] <= db,
        0 <= wb,
        0 <= db,
    ensures
        0 <= wsum(w, d) <= w.len() * wb * db,
    decreases w.len(),
{
    if w.len() == 0 {
    } else {
        lemma_wsum_bound(w.drop_last(), d.drop_last(), wb, db);
        let n = w.len() as int;
        assert(0 <= w.last() * d.last() <= wb * db) by (nonlinear_arith)
            requires
                0 <= w.last() <= wb,
                0 <= d.last() <= db,
        ;
        assert((n - 1) * wb * db + wb * db == n * wb * db) by (nonlinear_arith);
    }
}

/// A prefix of a weighted sum of non-negative terms is at most the whole.
pub proof fn lemma_wsum_prefix_bound(w: Seq<int>, d: Seq<int>, i: int)
    requires
        w.len() == d.len(),
        0 <= i <= w.len(),
        forall|j: int| 0 <= j < w.len() ==> 0 <= #[trigger] w[j],
        forall|j: int| 0 <= j < d.len() ==> 0 <= #[trigger] d[j],
    ensures
        0 <= wsum(w.take(i), d.take(i)) <= wsum(w, d),
    decreases w.len() - i,
{
    if i == w.len() {
        assert(w.take(i) =~= w);
        assert(d.take(i) =~= d);
        lemma_wsum_nonneg(w, d);
    } else {
        lemma_wsum_take_succ(w, d, i);
        lemma_wsum_prefix_bound(w, d, i + 1);
        assert(0 <= w[i] * d[i]) by (nonlinear_arith)
            requires
                0 <= w[i],
                0 <= d[i],
        ;
        lemma_wsum_nonneg(w.take(i), d.take(i));
    }
}

/// A weighted sum of non-negative terms is non-negative.
pub proof fn lemma_wsum_nonneg(w: Seq<int>, d: Seq<int>)
    requires
        w.len() == d.len(),
        forall|j: int| 0 <= j < w.len() ==> 0 <= #[trigger] w[j],
        forall|j: int| 0 <= j < d.len() ==> 0 <= #[trigger] d[j],
    ensures
        0 <= wsum(w, d),
    decreases w.len(),
{
    if w.len() > 0 {
        lemma_wsum_nonneg(w.drop_last(), d.drop_last());
        assert(0 <= w.last() * d.last()) by (nonlinear_arith)
            requires
                0 <= w.last(),
                0 <= d.last(),
        ;
    }
}

/// Raising the word pointwise cannot lower the weighted sum, for
/// non-negative weights.
pub proof fn lemma_wsum_mono(w: Seq<int>, d1: Seq<int>, d2: Seq<int>)
    requires
        w.len() == d1.len(),
        w.len() == d2.len(),
        forall|j: int| 0 <= j < w.len() ==> 0 <= #[trigger] w[j],
        forall|j: int| 0 <= j < w.len() ==> #[trigger] d1[j] <= d2[j],
    ensures
        wsum(w, d1) <= wsum(w, d2),
    decreases w.len(),
{
    if w.len() > 0 {
        lemma_wsum_mono(w.drop_last(), d1.drop_last(), d2.drop_last());
        lemma_mul_inequality(d1.last(), d2.last(), w.last());
    }
}

/// Changing one position of the word shifts the weighted sum by the
/// weighted change.
pub proof fn lemma_wsum_update(w: Seq<int>, d: Seq<int>, i: int, v: int)
    requires
        w.len() == d.len(),
        0 <= i < d.len(),
    ensures
        wsum(w, d.update(i, v)) == wsum(w, d) + w[i] * (v - d[i]),
    decreases w.len(),
{
    let du = d.update(i, v);
    assert(w[i] * v - w[i] * d[i] == w[i] * (v - d[i])) by (nonlinear_arith);
    if i == w.len() - 1 {
        assert(du.drop_last() =~= d.drop_last());
        assert(du.last() == v);
        assert(wsum(w, du) == wsum(w.drop_last(), d.drop_last()) + w.last() * v);
        assert(wsum(w, d) == wsum(w.drop_last(), d.drop_last()) + w.last() * d[i]);
    } else {
        assert(du.drop_last() =~= d.drop_last().update(i, v));
        lemma_wsum_update(w.drop_last(), d.drop_last(), i, v);
        assert(du.last() == d.last());
        assert(wsum(w, du) == wsum(w.drop_last(), du.drop_last()) + w.last() * d.last());
        assert(w.drop_last()[i] == w[i] && d.drop_last()[i] == d[i]);
    }
}


/// A payload that the encoder accepts: six digit characters whose four
/// check values are all single digits.
pub open spec fn encode_ok(input: Seq<char>) -> bool {
    input.len() == 6 && all_digit_chars(input) && (forall|k: int|
        0 <= k < 4 ==> check_digit(chars_digits(input), k) <= 9)
}

/// Exactly when `calculate_hamming_check_digits` fails with `e`.
pub open spec fn check_digits_err(input: Seq<char>, e: HammingError) -> bool {
    match e {
        HammingError::InvalidLength(req, act) => req == 6 && act == input.len() && input.len()
            != 6,
        HammingError::InvalidDigit => input.len() == 6 && !all_digit_chars(input),
        HammingError::UnusableNumber => input.len() == 6 && all_digit_chars(input) && exists|k: int|
            0 <= k < 4 && check_digit(chars_digits(input), k) > 9,
    }
}

/// Exactly when `generate_syndromes` fails with `e`.
pub open spec fn syndromes_err(input: Seq<char>, e: HammingError) -> bool {
    match e {
        HammingError::InvalidLength(req, act) => req == 10 && act == input.len() && input.len()
            != 10,
        HammingError::InvalidDigit => input.len() == 10 && !all_digit_chars(input),
        HammingError::UnusableNumber => false,
    }
}

/// What can go wrong when deriving check digits or syndromes.
#[derive(Debug, Copy, Clone)]
pub enum HammingError {
    InvalidDigit,
    UnusableNumber,
    InvalidLength(usize, usize),
}

/// One exec weight row of the check-digit generator.
pub(crate) fn enc_row(k: usize) -> (w: Vec<u32>)
    requires
        k < 4,
    ensures
        ints_of(w@) == enc_weight(k as int),
        w@.len() == 6,
{
    let w: Vec<u32> = if k == 0 {
        vec![4, 10, 9, 2, 1, 7]
    } else if k == 1 {
        vec![7, 8, 7, 1, 9, 6]
    } else if k == 2 {
        vec![9, 1, 7, 8, 7, 7]
    } else {
        vec![1, 2, 9, 10, 4, 1]
    };
    proof {
        assert(ints_of(w@) =~= enc_weight(k as int));
    }
    w
}

/// One exec weight row of the syndrome calculator.
pub(crate) fn syn_row(j: usize) -> (w: Vec<u32>)
    requires
        j < 4,
    ensures
        ints_of(w@) == syn_weight(j as int),
        w@.len() == 10,
{
    let w: Vec<u32> = if j == 0 {
        vec![1, 1, 1, 1, 1, 1, 1, 1, 1, 1]
    } else if j == 1 {
        vec![1, 2, 3, 4, 5, 6, 7, 8, 9, 10]
    } else if j == 2 {
        vec![1, 4, 9, 5, 3, 3, 5, 9, 4, 1]
    } else {
        vec![1, 8, 5, 9, 4, 7, 2, 6, 3, 10]
    };
    proof {
        assert(ints_of(w@) =~= syn_weight(j as int));
    }
    w
}

/// The weighted sum of `input` under `weights`, reduced modulo 11.
/// Rejects a word or a weight row whose length is not the expected one.
#[verifier::loop_isolation(false)]
pub fn calculate_digit(weights: &[u32], input: &[u32], length: usize) -> (r: Result<
    u32,
    &'static str,
>)
    requires
        weights@.len() == input@.len() ==> wsum(ints_of(weights@), ints_of(input@))
            <= u32::MAX as int,
    ensures
        match r {
            Ok(v) => input@.len() == length && weights@.len() == length && v < 11 && v as int
                == wsum(ints_of(weights@), ints_of(input@)) % 11,
            Err(msg) => {
                if input@.len() != length {
                    msg@ == "Input length does not equal length."@
                } else {
                    weights@.len() != length && msg@ == "Weights length does not equal length."@
                }
            },
        },
{
    if input.len() != length {
        return Err("Input length does not equal length.");
    }
    if weights.len() != length {
        return Err("Weights length does not equal length.");
    }
    let ghost wi = ints_of(weights@);
    let ghost di = ints_of(input@);
    let mut acc: u32 = 0;
    let mut i: usize = 0;
    while i < length
        invariant
            0 <= i <= length,
            acc as int == wsum(wi.take(i as int), di.take(i as int)),
        decreases length - i,
    {
        proof {
            lemma_wsum_take_succ(wi, di, i as int);
            lemma_wsum_prefix_bound(wi, di, i as int + 1);
            lemma_wsum_nonneg(wi.take(i as int), di.take(i as int));
        }
        let term: u32 = weights[i] * input[i];
        acc = acc + term;
        i = i + 1;
    }
    proof {
        assert(wi.take(length as int) =~= wi);
        assert(di.take(length as int) =~= di);
    }
    Ok(acc % 11)
}

/// Derives one check or syndrome digit from a weight row and a parsed
/// word, both of the same length; the weighted sum of an all-nines word
/// must fit the machine word.
#[verifier::loop_isolation(false)]
pub(crate) fn row_digit(w: &Vec<u32>, d: &Vec<u32>) -> (r: u32)
    requires
        w@.len() == d@.len(),
        is_digit_vals(d@),
        wsum(ints_of(w@), nines(w@.len() as int)) <= u32::MAX as int,
        forall|j: int| 0 <= j < w@.len() ==> 0 <= #[trigger] ints_of(w@)[j],
    ensures
        r < 11,
        r as int == wsum(ints_of(w@), ints_of(d@)) % 11,
{
    proof {
        lemma_wsum_mono(ints_of(w@), ints_of(d@), nines(w@.len() as int));
    }
    let out = calculate_digit(w.as_slice(), d.as_slice(), w.len());
    match out {
        Ok(v) => v,
        Err(_) => vstd::pervasive::unreached(),
    }
}

/// Calculates the four check digits for a six-digit payload.  Fails when
/// the payload has the wrong length, holds a non-digit, or yields a check
/// value of ten, which no single decimal digit can write.  Returns the
/// check digits alone, not the whole codeword.
#[verifier::loop_isolation(false)]
pub fn calculate_hamming_check_digits(input: &str) -> (r: Result<String, HammingError>)
    ensures
        match r {
            Ok(s) => encode_ok(input@) && s@ == check_chars4(chars_digits(input@)),
            Err(e) => check_digits_err(input@, e),
        },
{
    let n = input.unicode_len();
    if n != 6 {
        return Err(HammingError::InvalidLength(6, n));
    }
    let ds = match parse_digits(input) {
        Some(d) => d,
        None => {
            return Err(HammingError::InvalidDigit);
        },
    };
    let ghost dv = chars_digits(input@);
    let mut out = String::new();
    let mut k: usize = 0;
    while k < 4
        invariant
            0 <= k <= 4,
            out@ == check_chars4(dv).take(k as int),
            forall|j: int| 0 <= j < k ==> check_digit(dv, j) <= 9,
        decreases 4 - k,
    {
        let row = enc_row(k);
        proof {
            lemma_enc_row_fits(k as int);
        }
        let v = row_digit(&row, &ds);
        if v > 9 {
            proof {
                assert(check_digit(dv, k as int) > 9);
            }
            return Err(HammingError::UnusableNumber);
        }
        out.append(digit_str(v));
        proof {
            assert(out@ =~= check_chars4(dv).take(k as int + 1));
        }
        k = k + 1;
    }
    proof {
        assert(check_chars4(dv).take(4) =~= check_chars4(dv));
    }
    Ok(out)
}

/// The check-digit weight rows are small and non-negative, so their
/// weighted sums over digit words stay tiny.
pub(crate) proof fn lemma_enc_row_fits(k: int)
    requires
        0 <= k < 4,
    ensures
        wsum(enc_weight(k), nines(6)) <= u32::MAX as int,
        forall|j: int| 0 <= j < enc_weight(k).len() ==> 0 <= #[trigger] enc_weight(k)[j],
        enc_weight(k).len() == 6,
{
    assert(forall|j: int| 0 <= j < 6 ==> 0 <= #[trigger] enc_weight(k)[j] <= 10);
    assert(forall|j: int| 0 <= j < 6 ==> 0 <= #[trigger] nines(6)[j] <= 9);
    lemma_wsum_bound(enc_weight(k), nines(6), 10, 9);
}

/// The syndrome weight rows are small and non-negative as well.
pub(crate) proof fn lemma_syn_row_fits(j: int)
    requires
        0 <= j < 4,
    ensures
        wsum(syn_weight(j), nines(10)) <= u32::MAX as int,
        forall|i: int| 0 <= i < syn_weight(j).len() ==> 0 <= #[trigger] syn_weight(j)[i],
        syn_weight(j).len() == 10,
{
    assert(forall|i: int| 0 <= i < 10 ==> 0 <= #[trigger] syn_weight(j)[i] <= 10);
    assert(forall|i: int| 0 <= i < 10 ==> 0 <= #[trigger] nines(10)[i] <= 9);
    lemma_wsum_bound(syn_weight(j), nines(10), 10, 9);
}


/// The integer rows behind a borrowed table of weight rows.
pub open spec fn rows_of(ws: Seq<&[u32]>) -> Seq<Seq<int>> {
    ws.map_values(|r: &[u32]| ints_of(r@))
}

/// The check characters a word yields under a table of weight rows.
pub open spec fn rows_check_chars(ws: Seq<Seq<int>>, d: Seq<u32>) -> Seq<char> {
    Seq::new(ws.len(), |k: int| char_of_digit(wsum(ws[k], ints_of(d)) % 11))
}

/// Derives one check character per weight row and returns the input with
/// those characters appended.  Every row must have the expected length,
/// and its weighted sum over an all-nines word must fit the machine word.
#[verifier::loop_isolation(false)]
pub fn calculate_digits(weights: &[&[u32]], input: &str, length: usize) -> (r: Result<
    String,
    String,
>)
    requires
        forall|k: int| 0 <= k < weights@.len() ==> (#[trigger] weights@[k]@).len() == length,
        forall|k: int|
            0 <= k < weights@.len() ==> wsum(ints_of(#[trigger] weights@[k]@), nines(length as int))
                <= u32::MAX as int,
    ensures
        match r {
            Ok(s) => input@.len() == length && all_digit_chars(input@) && (forall|k: int|
                0 <= k < weights@.len() ==> #[trigger] wsum(
                    rows_of(weights@)[k],
                    ints_of(chars_digits(input@)),
                ) % 11 <= 9) && s@ == input@ + rows_check_chars(
                rows_of(weights@),
                chars_digits(input@),
            ),
            Err(msg) => {
                if input@.len() != length {
                    msg@ == "Input length too small - should be "@ + dec_str(length as nat)
                        + " not "@ + dec_str(input@.len() as nat) + "!"@
                } else if !all_digit_chars(input@) {
                    msg@ == "Invalid Digit"@
                } else {
                    (exists|k: int|
                        0 <= k < weights@.len() && #[trigger] wsum(
                            rows_of(weights@)[k],
                            ints_of(chars_digits(input@)),
                        ) % 11 > 9) && msg@ == "Inputted string cannot be encoded using BCH(10,6)"@
                }
            },
        },
{
    let n = input.unicode_len();
    if n != length {
        let mut msg = String::from_str("Input length too small - should be ");
        msg.append(usize_to_string(length).as_str());
        msg.append(" not ");
        msg.append(usize_to_string(n).as_str());
        msg.append("!");
        proof {
            assert(msg@ =~= "Input length too small - should be "@ + dec_str(length as nat)
                + " not "@ + dec_str(n as nat) + "!"@);
        }
        return Err(msg);
    }
    let ds = match parse_digits(input) {
        Some(d) => d,
        None => {
            return Err(String::from_str("Invalid Digit"));
        },
    };
    let ghost dv = chars_digits(input@);
    let mut checks = String::new();
    let mut k: usize = 0;
    while k < weights.len()
        invariant
            0 <= k <= weights@.len(),
            checks@ == rows_check_chars(rows_of(weights@), dv).take(k as int),
            forall|j: int|
                0 <= j < k ==> #[trigger] wsum(rows_of(weights@)[j], ints_of(dv)) % 11 <= 9,
        decreases weights@.len() - k,
    {
        let row: &[u32] = weights[k];
        proof {
            assert(forall|i: int|
                0 <= i < row@.len() ==> 0 <= #[trigger] ints_of(row@)[i]);
            assert(forall|i: int|
                0 <= i < ds@.len() ==> #[trigger] ints_of(ds@)[i] <= nines(length as int)[i]);
            assert(forall|i: int|
                0 <= i < ds@.len() ==> 0 <= #[trigger] ints_of(ds@)[i]);
            lemma_wsum_mono(ints_of(row@), ints_of(ds@), nines(length as int));
            lemma_wsum_nonneg(ints_of(row@), ints_of(ds@));
        }
        let v = match calculate_digit(row, ds.as_slice(), length) {
            Ok(v) => v,
            Err(_) => vstd::pervasive::unreached(),
        };
        if v > 9 {
            proof {
                assert(0 <= k < weights@.len() && #[trigger] wsum(
                    rows_of(weights@)[k as int],
                    ints_of(dv),
                ) % 11 > 9);
            }
            return Err(String::from_str("Inputted string cannot be encoded using BCH(10,6)"));
        }
        checks.append(digit_str(v));
        proof {
            assert(checks@ =~= rows_check_chars(rows_of(weights@), dv).take(k as int + 1));
        }
        k = k + 1;
    }
    let out = String::from_str(input).concat(checks.as_str());
    proof {
        assert(rows_check_chars(rows_of(weights@), dv).take(weights@.len() as int)
            =~= rows_check_chars(rows_of(weights@), dv));
    }
    Ok(out)
}

/// Calculates the four syndromes of a ten-digit received word, each
/// already reduced modulo 11.
#[verifier::loop_isolation(false)]
pub fn generate_syndromes(input: &str) -> (r: Result<Vec<u32>, HammingError>)
    ensures
        match r {
            Ok(v) => input@.len() == 10 && all_digit_chars(input@) && v@.len() == 4 && forall|
                j: int,
            |
                0 <= j < 4 ==> #[trigger] v@[j] as int == syndrome(chars_digits(input@), j),
            Err(e) => syndromes_err(input@, e),
        },
{
    let n = input.unicode_len();
    if n != 10 {
        return Err(HammingError::InvalidLength(10, n));
    }
    let ds = match parse_digits(input) {
        Some(d) => d,
        None => {
            return Err(HammingError::InvalidDigit);
        },
    };
    let ghost dv = chars_digits(input@);
    let mut v: Vec<u32> = Vec::new();
    let mut j: usize = 0;
    while j < 4
        invariant
            0 <= j <= 4,
            v@.len() == j,
            forall|i: int| 0 <= i < j ==> #[trigger] v@[i] as int == syndrome(dv, i),
        decreases 4 - j,
    {
        let row = syn_row(j);
        proof {
            lemma_syn_row_fits(j as int);
        }
        let s = row_digit(&row, &ds);
        v.push(s);
        j = j + 1;
    }
    Ok(v)
}

} // verus!
