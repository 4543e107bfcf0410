//! ISBN-10 validation: hyphens are ignored, a trailing 'X' stands for a
//! check value of ten, and the position-weighted sum of the first nine
//! digits must match the check value modulo 11.

use vstd::prelude::*;

verus! {

use crate::digits::{all_digit_chars, chars_digits, ints_of};
use crate::hamming::{wsum, lemma_wsum_take_succ};

/// Why an ISBN string is rejected.
pub enum ISBNVerificationError {
    InvalidDigitCount,
    NonValidISBN,
    InvalidDigitsFound,
}

/// The string with its hyphens removed.
pub open spec fn isbn_stripped(s: Seq<char>) -> Seq<char> {
    s.filter(|c: char| c != '-')
}

/// Whether a ten-character stripped ISBN ends in the 'X' that stands for
/// a check value of ten.
pub open spec fn isbn_has_x(t: Seq<char>) -> bool {
    t.len() > 0 && t.last() == 'X'
}

/// The characters that must be decimal digits: all ten, or the first nine
/// when the last is the 'X'.
pub open spec fn isbn_digit_part(t: Seq<char>) -> Seq<char> {
    if isbn_has_x(t) {
        t.take(t.len() - 1)
    } else {
        t
    }
}

/// The check value the string declares: ten for a trailing 'X', else the
/// last digit.
pub open spec fn isbn_declared(t: Seq<char>) -> int {
    if isbn_has_x(t) {
        10
    } else {
        t.last() as int - 48
    }
}

/// The weights 1 through n, one per position.
pub open spec fn pos_weights(n: int) -> Seq<int> {
    Seq::new(n as nat, |i: int| i + 1)
}

/// The position-weighted sum of the first nine digits of a stripped ISBN.
pub open spec fn isbn_sum(t: Seq<char>) -> int {
    wsum(pos_weights(9), ints_of(chars_digits(t.take(9))))
}

/// Checks an ISBN-10.  Hyphens are ignored; exactly ten characters must
/// remain; a trailing 'X' declares a check value of ten; the weighted sum
/// of the nine body digits must match the declared check value modulo 11.
#[verifier::loop_isolation(false)]
pub fn verify_isbn(isbn: &str) -> (r: Result<(), ISBNVerificationError>)
    ensures
        match r {
            Ok(()) => isbn_stripped(isbn@).len() == 10 && all_digit_chars(
                isbn_digit_part(isbn_stripped(isbn@)),
            ) && isbn_sum(isbn_stripped(isbn@)) % 11 == isbn_declared(isbn_stripped(isbn@)),
            Err(e) => match e {
                ISBNVerificationError::InvalidDigitCount => isbn_stripped(isbn@).len() != 10,
                ISBNVerificationError::InvalidDigitsFound => isbn_stripped(isbn@).len() == 10
                    && !all_digit_chars(isbn_digit_part(isbn_stripped(isbn@))),
                ISBNVerificationError::NonValidISBN => isbn_stripped(isbn@).len() == 10
                    && all_digit_chars(isbn_digit_part(isbn_stripped(isbn@))) && isbn_sum(
                    isbn_stripped(isbn@),
                ) % 11 != isbn_declared(isbn_stripped(isbn@)),
            },
        },
{
    let n = isbn.unicode_len();
    let mut st: Vec<char> = Vec::new();
    let mut i: usize = 0;
    while i < n
        invariant
            0 <= i <= n,
            st@ == isbn_stripped(isbn@.take(i as int)),
            forall|k: int| 0 <= k < st@.len() ==> (#[trigger] st@[k] as u32) as int == st@[k] as int,
        decreases n - i,
    {
        let c = isbn.get_char(i);
        let _code = c as u32;
        proof {
            assert(_code as int == c as int);
        }
        proof {
            reveal(Seq::filter);
            assert(isbn@.take(i as int + 1).drop_last() =~= isbn@.take(i as int));
        }
        if c != '-' {
            st.push(c);
        }
        i = i + 1;
    }
    proof {
        assert(isbn@.take(n as int) =~= isbn@);
    }
    let ghost t = isbn_stripped(isbn@);
    proof {
        assert(st@ == t);
    }
    if st.len() != 10 {
        return Err(ISBNVerificationError::InvalidDigitCount);
    }
    let has_x = st[9] == 'X';
    let body_len: usize = if has_x {
        9
    } else {
        10
    };
    proof {
        if has_x {
            assert(isbn_digit_part(t) =~= t.take(9));
        } else {
            assert(isbn_digit_part(t) =~= t);
        }
    }
    let mut digits: Vec<u32> = Vec::new();
    let mut j: usize = 0;
    while j < body_len
        invariant
            0 <= j <= body_len,
            body_len == isbn_digit_part(t).len(),
            forall|k: int| 0 <= k < j ==> crate::digits::is_digit_char(isbn_digit_part(t)[k]),
            digits@ == chars_digits(isbn_digit_part(t).take(j as int)),
            digits@.len() == j,
        decreases body_len - j,
    {
        let c = st[j];
        proof {
            assert(st@[j as int] == isbn_digit_part(t)[j as int]);
            assert((st@[j as int] as u32) as int == st@[j as int] as int);
        }
        let u = c as u32;
        if u < 48 || u > 57 {
            proof {
                assert(!crate::digits::is_digit_char(isbn_digit_part(t)[j as int]));
            }
            return Err(ISBNVerificationError::InvalidDigitsFound);
        }
        digits.push(u - 48);
        proof {
            assert(crate::digits::is_digit_char(isbn_digit_part(t)[j as int]));
            assert(digits@ =~= chars_digits(isbn_digit_part(t).take(j as int + 1)));
        }
        j = j + 1;
    }
    proof {
        assert(isbn_digit_part(t).take(body_len as int) =~= isbn_digit_part(t));
    }
    let declared: u32 = if has_x {
        10
    } else {
        digits[9]
    };
    proof {
        assert(declared as int == isbn_declared(t));
    }
    let ghost bw = pos_weights(9);
    let ghost bd = ints_of(chars_digits(t.take(9)));
    proof {
        assert(chars_digits(t.take(9)) =~= digits@.take(9));
    }
    let mut acc: u32 = 0;
    let mut k: usize = 0;
    while k < 9
        invariant
            0 <= k <= 9,
            acc as int == wsum(bw.take(k as int), bd.take(k as int)),
            acc <= 90 * k,
        decreases 9 - k,
    {
        proof {
            lemma_wsum_take_succ(bw, bd, k as int);
            assert(crate::digits::is_digit_char(isbn_digit_part(t)[k as int]));
            assert(digits@[k as int] <= 9);
            assert(bd[k as int] == digits@[k as int] as int);
            assert((k as int + 1) * digits@[k as int] <= 90) by (nonlinear_arith)
                requires
                    0 <= k as int <= 8,
                    0 <= digits@[k as int] <= 9,
            ;
        }
        let term: u32 = (k as u32 + 1) * digits[k];
        acc = acc + term;
        k = k + 1;
    }
    proof {
        assert(bw.take(9) =~= bw);
        assert(bd.take(9) =~= bd);
    }
    if acc % 11 == declared {
        Ok(())
    } else {
        Err(ISBNVerificationError::NonValidISBN)
    }
}

} // verus!
