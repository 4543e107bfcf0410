//! Brute-force password search: candidate words over an alphabet are
//! enumerated by a base-`alphabet` counter and checked against a target
//! SHA-1 digest, either directly or after encoding the candidate as a
//! (10,6) codeword.

use vstd::prelude::*;

verus! {

use crate::bch::encode_bch;
use crate::digits::{chars_digits, push_char, str_eq};
use crate::hamming::{check_chars4, encode_ok};
use crate::hash::{sha1, sha1_hex_of};
use vstd::arithmetic::power::{pow, lemma_pow_adds, lemma_pow1, lemma_pow_positive};
use vstd::utf8::encode_utf8;

/// The thirty-six lowercase alphanumeric candidate characters.
pub open spec fn full_alphabet() -> Seq<char> {
    seq![
        'a', 'b', 'c', 'd', 'e', 'f', 'g', 'h', 'i', 'j', 'k', 'l', 'm', 'n', 'o', 'p', 'q', 'r',
        's', 't', 'u', 'v', 'w', 'x', 'y', 'z', '0', '1', '2', '3', '4', '5', '6', '7', '8', '9',
    ]
}

/// The ten digit characters, for codeword payload search.
pub open spec fn digit_alphabet() -> Seq<char> {
    seq!['0', '1', '2', '3', '4', '5', '6', '7', '8', '9']
}

/// The candidate a counter writes: one alphabet character per counter
/// digit, skipping the padding digits of minus one.
pub open spec fn indices_str(idx: Seq<i32>, alpha: Seq<char>) -> Seq<char>
    decreases idx.len(),
{
    if idx.len() == 0 {
        Seq::empty()
    } else {
        indices_str(idx.drop_last(), alpha) + (if idx.last() == -1 {
            Seq::<char>::empty()
        } else {
            seq![alpha[idx.last() as int]]
        })
    }
}

/// The number a counter writes in base `base`, most significant digit
/// first.
pub open spec fn idx_val(s: Seq<i32>, base: int) -> int
    decreases s.len(),
{
    if s.len() == 0 {
        0
    } else {
        idx_val(s.drop_last(), base) * base + s.last()
    }
}

/// All counter digits lie in the padding-to-base range.
pub open spec fn idx_in_range(s: Seq<i32>, base: int) -> bool {
    forall|i: int| 0 <= i < s.len() ==> -1 <= #[trigger] s[i] < base
}

/// Changing one counter digit shifts the counter's number by the change,
/// scaled by the position's place value.
proof fn lemma_idx_val_update(s: Seq<i32>, p: int, x: i32, base: int)
    requires
        0 <= p < s.len(),
    ensures
        idx_val(s.update(p, x), base) == idx_val(s, base) + (x - s[p]) * pow(
            base,
            (s.len() - 1 - p) as nat,
        ),
    decreases s.len(),
{
    let su = s.update(p, x);
    if p == s.len() - 1 {
        assert(su.drop_last() =~= s.drop_last());
        assert(su.last() == x);
        lemma_pow1(base);
        vstd::arithmetic::power::lemma_pow0(base);
        assert((x - s[p]) * 1 == x - s[p]) by (nonlinear_arith);
    } else {
        assert(su.drop_last() =~= s.drop_last().update(p, x));
        lemma_idx_val_update(s.drop_last(), p, x, base);
        assert(su.last() == s.last());
        let e = (s.len() - 2 - p) as nat;
        lemma_pow_adds(base, e, 1);
        lemma_pow1(base);
        assert((idx_val(s.drop_last(), base) + (x - s[p]) * pow(base, e)) * base == idx_val(
            s.drop_last(),
            base,
        ) * base + (x - s[p]) * (pow(base, e) * base)) by (nonlinear_arith);
    }
}

/// A counter whose digits are in range writes a number below the full
/// place value, and above its negation.
proof fn lemma_idx_val_bounds(s: Seq<i32>, base: int)
    requires
        2 <= base,
        idx_in_range(s, base),
    ensures
        1 - pow(base, s.len()) <= idx_val(s, base) <= pow(base, s.len()) - 1,
    decreases s.len(),
{
    if s.len() == 0 {
        vstd::arithmetic::power::lemma_pow0(base);
    } else {
        assert(idx_in_range(s.drop_last(), base));
        lemma_idx_val_bounds(s.drop_last(), base);
        let v = idx_val(s.drop_last(), base);
        let n1 = (s.len() - 1) as nat;
        lemma_pow_adds(base, n1, 1);
        lemma_pow1(base);
        lemma_pow_positive(base, n1);
        assert(-1 <= s[s.len() - 1] < base);
        assert(s.last() == s[s.len() - 1]);
        assert(pow(base, s.len()) == pow(base, n1) * base);
        assert(idx_val(s, base) == v * base + s.last());
        assert(v * base <= (pow(base, n1) - 1) * base && (1 - pow(base, n1)) * base <= v * base)
            by (nonlinear_arith)
            requires
                1 - pow(base, n1) <= v <= pow(base, n1) - 1,
                base >= 2,
        ;
        assert((pow(base, n1) - 1) * base == pow(base, n1) * base - base) by (nonlinear_arith);
        assert((1 - pow(base, n1)) * base == base - pow(base, n1) * base) by (nonlinear_arith);
    }
}


/// The candidate a counter writes is no longer than the counter and made
/// of alphabet characters only.
proof fn lemma_indices_str_props(idx: Seq<i32>, alpha: Seq<char>)
    requires
        idx_in_range(idx, alpha.len() as int),
    ensures
        indices_str(idx, alpha).len() <= idx.len(),
        forall|i: int|
            0 <= i < indices_str(idx, alpha).len() ==> alpha.contains(
                #[trigger] indices_str(idx, alpha)[i],
            ),
    decreases idx.len(),
{
    if idx.len() > 0 {
        assert(idx_in_range(idx.drop_last(), alpha.len() as int));
        lemma_indices_str_props(idx.drop_last(), alpha);
        let pre = indices_str(idx.drop_last(), alpha);
        let whole = indices_str(idx, alpha);
        assert forall|i: int| 0 <= i < whole.len() implies alpha.contains(#[trigger] whole[i]) by {
            if idx.last() == -1 {
                assert(whole[i] == pre[i]);
            } else {
                if i < pre.len() {
                    assert(whole[i] == pre[i]);
                } else {
                    assert(whole[i] == alpha[idx.last() as int]);
                    assert(alpha.contains(alpha[idx.last() as int]));
                }
            }
        }
    }
}

/// A counter with no padding digits left writes a non-negative number.
proof fn lemma_idx_val_nonneg(s: Seq<i32>, base: int)
    requires
        0 <= base,
        forall|i: int| 0 <= i < s.len() ==> 0 <= #[trigger] s[i],
    ensures
        0 <= idx_val(s, base),
    decreases s.len(),
{
    if s.len() > 0 {
        lemma_idx_val_nonneg(s.drop_last(), base);
        assert(0 <= idx_val(s.drop_last(), base) * base) by (nonlinear_arith)
            requires
                0 <= idx_val(s.drop_last(), base),
                0 <= base,
        ;
    }
}

/// Writes the candidate a counter names: one alphabet character per
/// counter digit, skipping padding digits.
#[verifier::loop_isolation(false)]
fn indices_to_string(indices: &Vec<i32>, alphabet: &Vec<char>) -> (r: String)
    requires
        idx_in_range(indices@, alphabet@.len() as int),
    ensures
        r@ == indices_str(indices@, alphabet@),
{
    let mut out = String::new();
    let mut i: usize = 0;
    while i < indices.len()
        invariant
            0 <= i <= indices@.len(),
            out@ == indices_str(indices@.take(i as int), alphabet@),
        decreases indices@.len() - i,
    {
        let ix = indices[i];
        proof {
            assert(indices@.take(i as int + 1).drop_last() =~= indices@.take(i as int));
        }
        if ix != -1 {
            push_char(&mut out, alphabet[ix as usize]);
        }
        proof {
            assert(out@ =~= indices_str(indices@.take(i as int + 1), alphabet@));
        }
        i = i + 1;
    }
    proof {
        assert(indices@.take(indices@.len() as int) =~= indices@);
    }
    out
}

/// Advances the counter by `amount` in base `alphabet_size`, carrying
/// leftwards.  It fails exactly when the counter's number plus `amount`
/// no longer fits the counter's width, and a zero advance changes
/// nothing.
#[verifier::loop_isolation(false)]
fn increment_indices(indices: &mut Vec<i32>, alphabet_size: usize, amount: i32) -> (r: Result<
    (),
    &'static str,
>)
    requires
        2 <= alphabet_size <= 1000,
        0 <= amount <= 1000000,
        idx_in_range(old(indices)@, alphabet_size as int),
    ensures
        final(indices)@.len() == old(indices)@.len(),
        idx_in_range(final(indices)@, alphabet_size as int),
        r is Ok ==> idx_val(final(indices)@, alphabet_size as int) == idx_val(
            old(indices)@,
            alphabet_size as int,
        ) + amount,
        r is Ok ==> idx_val(old(indices)@, alphabet_size as int) + amount <= pow(
            alphabet_size as int,
            old(indices)@.len() as nat,
        ) - 1,
        r is Err ==> idx_val(old(indices)@, alphabet_size as int) + amount >= pow(
            alphabet_size as int,
            old(indices)@.len() as nat,
        ),
        amount == 0 ==> final(indices)@ == old(indices)@,
        match r {
            Ok(()) => true,
            Err(m) => m@ == "Further increments would overflow"@,
        },
{
    if amount == 0 {
        proof {
            lemma_idx_val_bounds(indices@, alphabet_size as int);
        }
        return Ok(());
    }
    let ghost base = alphabet_size as int;
    let ghost v0 = idx_val(old(indices)@, base);
    let n = indices.len();
    let mut carry: i32 = amount;
    let mut i: usize = 0;
    proof {
        vstd::arithmetic::power::lemma_pow0(base);
        assert(carry * pow(base, 0) == carry) by (nonlinear_arith)
            requires
                pow(base, 0) == 1,
        ;
    }
    while i < n
        invariant
            0 <= i <= n,
            0 <= carry <= 1000000,
            indices@.len() == n,
            idx_in_range(indices@, base),
            idx_val(indices@, base) + carry * pow(base, i as nat) == v0 + amount,
            forall|p: int| n - i <= p < n ==> 0 <= #[trigger] indices@[p],
        decreases n - i,
    {
        let position = n - 1 - i;
        if carry == 0 {
            break;
        }
        let current_value = indices[position];
        let new_value: i32 = current_value + carry;
        let ghost pre = indices@;
        let ghost oldd = indices@[position as int];
        if new_value >= alphabet_size as i32 {
            let nv_u: u32 = new_value as u32;
            let nd: i32 = (nv_u % (alphabet_size as u32)) as i32;
            let nc: i32 = (nv_u / (alphabet_size as u32)) as i32;
            indices.set(position, nd);
            proof {
                lemma_idx_val_update(pre, position as int, nd, base);
                lemma_pow_adds(base, i as nat, 1);
                lemma_pow1(base);
                vstd::arithmetic::div_mod::lemma_fundamental_div_mod(new_value as int, base);
                assert(nd as int == new_value as int - base * (nc as int));
                assert((nd - oldd) * pow(base, i as nat) + (nc as int) * (pow(base, i as nat)
                    * base) == carry * pow(base, i as nat)) by (nonlinear_arith)
                    requires
                        nd as int == (oldd + carry) - base * (nc as int),
                ;
                assert(0 <= nc <= carry) by (nonlinear_arith)
                    requires
                        nc as int == new_value as int / base,
                        new_value == oldd + carry,
                        -1 <= oldd < base,
                        1 <= carry,
                        2 <= base,
                ;
            }
            carry = nc;
        } else {
            indices.set(position, new_value);
            proof {
                lemma_idx_val_update(pre, position as int, new_value, base);
                lemma_pow_adds(base, i as nat, 1);
                lemma_pow1(base);
                assert((new_value - oldd) * pow(base, i as nat) == carry * pow(base, i as nat)
                    && 0int * (pow(base, i as nat) * base) == 0) by (nonlinear_arith)
                    requires
                        new_value == oldd + carry,
                ;
            }
            carry = 0;
        }
        i = i + 1;
    }
    if carry == 0 {
        proof {
            lemma_pow_positive(base, i as nat);
            lemma_idx_val_bounds(indices@, base);
        }
        Ok(())
    } else {
        proof {
            lemma_idx_val_nonneg(indices@, base);
            lemma_pow_positive(base, n as nat);
            assert(carry * pow(base, n as nat) >= pow(base, n as nat)) by (nonlinear_arith)
                requires
                    carry >= 1,
                    pow(base, n as nat) >= 1,
            ;
        }
        Err("Further increments would overflow")
    }
}

/// Some target in the batch is hit by this payload's codeword digest.
pub open spec fn some_hit(s: Seq<char>, inputs: Seq<&str>) -> bool {
    exists|j: int| 0 <= j < inputs.len() && crack_hit(s, #[trigger] inputs[j]@, true)
}

/// What holds of any password the search hands back: its digest, or the
/// digest of its codeword, is the target.
pub open spec fn crack_hit(s: Seq<char>, target: Seq<char>, bch: bool) -> bool {
    if bch {
        encode_ok(s) && sha1_hex_of(encode_utf8(s + check_chars4(chars_digits(s)))) == target
    } else {
        sha1_hex_of(encode_utf8(s)) == target
    }
}

/// Enumerates candidates of at most `password_length` characters over
/// the alphabet and returns the first whose digest matches the target;
/// what comes back is made of alphabet characters.  A `None` says the
/// search ran out of candidates.
#[verifier::loop_isolation(false)]
pub fn _crack(
    target: &str,
    password_length: u32,
    password_alphabet: &Vec<char>,
    bch: bool,
) -> (r: Option<String>)
    requires
        2 <= password_alphabet@.len() <= 1000,
    ensures
        match r {
            Some(s) => crack_hit(s@, target@, bch) && s@.len() <= password_length && forall|i: int|
                0 <= i < s@.len() ==> password_alphabet@.contains(#[trigger] s@[i]),
            None => true,
        },
{
    let len = password_length as usize;
    let init: i32 = if bch {
        0
    } else {
        -1
    };
    let asize = password_alphabet.len();
    let ghost base = asize as int;
    let mut indices: Vec<i32> = vec![init; len];
    proof {
        assert(idx_in_range(indices@, base));
        lemma_idx_val_bounds(indices@, base);
    }
    let mut found: Option<String> = None;
    let mut done = false;
    while !done
        invariant
            indices@.len() == len,
            idx_in_range(indices@, base),
            2 <= base <= 1000,
            match found {
                Some(s) => crack_hit(s@, target@, bch) && s@.len() <= password_length && forall|
                    i: int,
                |
                    0 <= i < s@.len() ==> password_alphabet@.contains(#[trigger] s@[i]),
                None => true,
            },
            found is Some ==> done,
        decreases
                (if done {
                    0int
                } else {
                    1int
                }),
                pow(base, len as nat) - idx_val(indices@, base),
    {
        proof {
            lemma_idx_val_bounds(indices@, base);
        }
        if bch {
            let cand = indices_to_string(&indices, password_alphabet);
            match encode_bch(cand.as_str()) {
                Ok(code) => {
                    let hex = sha1(code.as_str());
                    if str_eq(hex.as_str(), target) {
                        proof {
                            lemma_indices_str_props(indices@, password_alphabet@);
                        }
                        found = Some(cand);
                        done = true;
                    }
                },
                Err(_) => {},
            }
            if !done {
                match increment_indices(&mut indices, asize, 1) {
                    Ok(()) => {},
                    Err(_) => {
                        done = true;
                    },
                }
            }
        } else {
            match increment_indices(&mut indices, asize, 1) {
                Ok(()) => {
                    let cand = indices_to_string(&indices, password_alphabet);
                    let hex = sha1(cand.as_str());
                    if str_eq(hex.as_str(), target) {
                        proof {
                            lemma_indices_str_props(indices@, password_alphabet@);
                        }
                        found = Some(cand);
                        done = true;
                    }
                },
                Err(_) => {
                    done = true;
                },
            }
        }
        proof {
            lemma_idx_val_bounds(indices@, base);
        }
    }
    found
}

/// The exec alphabet of all candidate characters.
fn alphabet_vec() -> (a: Vec<char>)
    ensures
        a@ == full_alphabet(),
        a@.len() == 36,
{
    let a: Vec<char> = vec![
        'a', 'b', 'c', 'd', 'e', 'f', 'g', 'h', 'i', 'j', 'k', 'l', 'm', 'n', 'o', 'p', 'q', 'r',
        's', 't', 'u', 'v', 'w', 'x', 'y', 'z', '0', '1', '2', '3', '4', '5', '6', '7', '8', '9',
    ];
    proof {
        assert(a@ =~= full_alphabet());
    }
    a
}

/// The exec alphabet of the ten digits.
fn digit_alphabet_vec() -> (a: Vec<char>)
    ensures
        a@ == digit_alphabet(),
        a@.len() == 10,
{
    let a: Vec<char> = vec!['0', '1', '2', '3', '4', '5', '6', '7', '8', '9'];
    proof {
        assert(a@ =~= digit_alphabet());
    }
    a
}

/// Searches for a single password of at most six characters, drawn from
/// the lowercase alphanumeric alphabet, whose SHA-1 digest is the target.
pub fn crack_single(target: &str) -> (r: Option<String>)
    ensures
        match r {
            Some(s) => crack_hit(s@, target@, false) && s@.len() <= 6 && forall|i: int|
                0 <= i < s@.len() ==> full_alphabet().contains(#[trigger] s@[i]),
            None => true,
        },
{
    let alphabet = alphabet_vec();
    _crack(target, 6, &alphabet, false)
}

/// Searches, for each target digest, for the six-digit payload whose
/// codeword has that digest; hands back the payloads found, in the order
/// of their targets, or nothing when none was found.
#[verifier::loop_isolation(false)]
pub fn crack_bch(inputs: &[&str]) -> (r: Option<Vec<String>>)
    ensures
        match r {
            Some(v) => 0 < v@.len() <= inputs@.len() && forall|i: int|
                0 <= i < v@.len() ==> some_hit(#[trigger] v@[i]@, inputs@),
            None => true,
        },
{
    let alphabet = digit_alphabet_vec();
    let mut results: Vec<String> = Vec::new();
    let mut i: usize = 0;
    while i < inputs.len()
        invariant
            0 <= i <= inputs@.len(),
            results@.len() <= i,
            forall|k: int| 0 <= k < results@.len() ==> some_hit(#[trigger] results@[k]@, inputs@),
        decreases inputs@.len() - i,
    {
        let input: &str = inputs[i];
        if let Some(code) = _crack(input, 6, &alphabet, true) {
            proof {
                assert(crack_hit(code@, inputs@[i as int]@, true));
                assert(some_hit(code@, inputs@));
            }
            results.push(code);
        }
        i = i + 1;
    }
    if results.len() == 0 {
        None
    } else {
        Some(results)
    }
}

} // verus!
