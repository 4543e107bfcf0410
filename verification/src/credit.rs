//! Credit-card number validation by the doubled-digit checksum: spaces
//! are ignored, sixteen digits are required, every second digit (from the
//! first) is doubled with nine subtracted from results of ten or more,
//! and the total must be divisible by ten.

use vstd::prelude::*;

verus! {

use crate::digits::{all_digit_chars, chars_digits, is_digit_char};

/// Why a credit-card number is rejected.
pub enum CreditCardVerificationError {
    InvalidCreditCard,
    InvalidDigitsFound,
    InvalidLength,
}

/// The string with its spaces removed.
pub open spec fn card_stripped(s: Seq<char>) -> Seq<char> {
    s.filter(|c: char| c != ' ')
}

/// One digit's contribution: digits at even 0-based positions are
/// doubled, with nine subtracted when the double is ten or more.
pub open spec fn luhn_term(i: int, d: int) -> int {
    if i % 2 == 0 {
        if 2 * d >= 10 {
            2 * d - 9
        } else {
            2 * d
        }
    } else {
        d
    }
}

/// The checksum of a digit word.
pub open spec fn luhn_sum(d: Seq<u32>) -> int
    decreases d.len(),
{
    if d.len() == 0 {
        0
    } else {
        luhn_sum(d.drop_last()) + luhn_term(d.len() - 1, d.last() as int)
    }
}

/// Checks a credit-card number: spaces are ignored, all remaining
/// characters must be digits, exactly sixteen must remain, and the
/// doubled-digit checksum must be divisible by ten.
#[verifier::loop_isolation(false)]
pub fn verify_credit_card(credit_card_number: &String) -> (r: Result<
    (),
    CreditCardVerificationError,
>)
    ensures
        ({
            let t = card_stripped(credit_card_number@);
            match r {
                Ok(()) => all_digit_chars(t) && t.len() == 16 && luhn_sum(chars_digits(t)) % 10
                    == 0,
                Err(e) => match e {
                    CreditCardVerificationError::InvalidDigitsFound => !all_digit_chars(t),
                    CreditCardVerificationError::InvalidLength => all_digit_chars(t) && t.len()
                        != 16,
                    CreditCardVerificationError::InvalidCreditCard => all_digit_chars(t) && t.len()
                        == 16 && luhn_sum(chars_digits(t)) % 10 != 0,
                },
            }
        }),
{
    let input = credit_card_number.as_str();
    let n = input.unicode_len();
    let mut st: Vec<char> = Vec::new();
    let mut i: usize = 0;
    while i < n
        invariant
            0 <= i <= n,
            st@ == card_stripped(input@.take(i as int)),
            forall|k: int|
                0 <= k < st@.len() ==> (#[trigger] st@[k] as u32) as int == st@[k] as int,
        decreases n - i,
    {
        let c = input.get_char(i);
        let _code = c as u32;
        proof {
            assert(_code as int == c as int);
            reveal(Seq::filter);
            assert(input@.take(i as int + 1).drop_last() =~= input@.take(i as int));
        }
        if c != ' ' {
            st.push(c);
        }
        i = i + 1;
    }
    proof {
        assert(input@.take(n as int) =~= input@);
    }
    let ghost t = card_stripped(input@);
    proof {
        assert(st@ == t);
    }
    let mut digits: Vec<u32> = Vec::new();
    let mut j: usize = 0;
    let m = st.len();
    while j < m
        invariant
            0 <= j <= m,
            m == t.len(),
            forall|k: int| 0 <= k < j ==> is_digit_char(t[k]),
            digits@ == chars_digits(t.take(j as int)),
            digits@.len() == j,
            forall|k: int| 0 <= k < digits@.len() ==> #[trigger] digits@[k] <= 9,
        decreases m - j,
    {
        let c = st[j];
        proof {
            assert((st@[j as int] as u32) as int == st@[j as int] as int);
        }
        let u = c as u32;
        if u < 48 || u > 57 {
            proof {
                assert(!is_digit_char(t[j as int]));
            }
            return Err(CreditCardVerificationError::InvalidDigitsFound);
        }
        digits.push(u - 48);
        proof {
            assert(digits@ =~= chars_digits(t.take(j as int + 1)));
        }
        j = j + 1;
    }
    proof {
        assert(t.take(m as int) =~= t);
    }
    if digits.len() != 16 {
        return Err(CreditCardVerificationError::InvalidLength);
    }
    let mut acc: u32 = 0;
    let mut k: usize = 0;
    while k < 16
        invariant
            0 <= k <= 16,
            acc as int == luhn_sum(digits@.take(k as int)),
            acc <= 9 * k,
        decreases 16 - k,
    {
        let d = digits[k];
        let term: u32 = if k % 2 == 0 {
            let x = 2 * d;
            if x >= 10 {
                x - 9
            } else {
                x
            }
        } else {
            d
        };
        proof {
            assert(digits@.take(k as int + 1).drop_last() =~= digits@.take(k as int));
            assert(luhn_sum(digits@.take(k as int + 1)) == luhn_sum(digits@.take(k as int))
                + luhn_term(k as int, digits@[k as int] as int));
        }
        acc = acc + term;
        k = k + 1;
    }
    proof {
        assert(digits@.take(16) =~= digits@);
    }
    if acc % 10 == 0 {
        Ok(())
    } else {
        Err(CreditCardVerificationError::InvalidCreditCard)
    }
}

} // verus!
