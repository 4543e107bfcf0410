//! The (10,6) code over digit vectors: encoding a six-digit payload into
//! a ten-digit codeword, and checking a received ten-digit word, with the
//! corrections reported as structured values.

use vstd::prelude::*;

pub use crate::decode::TripleErrorReason;

verus! {

use crate::decode::{decode_digits, spec_decode, Decoded, SpecOutcome};
use crate::digits::{all_digit_chars, chars_digits, parse_digits};
use crate::hamming::{
    calculate_hamming_check_digits, check_chars4, check_digits_err, encode_ok, syndromes_err,
    HammingError,
};

/// What checking a received word reports: bad input, a repaired single or
/// double corruption, or corruption beyond repair.
#[derive(Debug)]
pub enum BCHError {
    InvalidInput(HammingError),
    SingleError(Vec<u32>, u32, u32),
    DoubleError(Vec<u32>, (u32, u32), (u32, u32)),
    TripleError(TripleErrorReason),
}

/// Encodes a six-digit payload: the payload followed by its four check
/// digits.
pub fn encode_bch(string: &str) -> (r: Result<String, BCHError>)
    ensures
        match r {
            Ok(s) => encode_ok(string@) && s@ == string@ + check_chars4(chars_digits(string@)),
            Err(e) => match e {
                BCHError::InvalidInput(he) => check_digits_err(string@, he),
                _ => false,
            },
        },
{
    match calculate_hamming_check_digits(string) {
        Ok(digits) => {
            let out = String::from_str(string).concat(digits.as_str());
            Ok(out)
        },
        Err(error) => Err(BCHError::InvalidInput(error)),
    }
}

/// Checks a received ten-digit word.  A clean word passes; a word with
/// one or two repairable corruptions is reported with the repaired digit
/// vector, the 1-indexed positions and the magnitudes; anything further
/// is rejected with the reason.
pub fn verify_bch_input(input: &str) -> (r: Result<(), BCHError>)
    ensures
        match r {
            Ok(()) => input@.len() == 10 && all_digit_chars(input@) && spec_decode(
                chars_digits(input@),
            ) == SpecOutcome::Clean,
            Err(e) => match e {
                BCHError::InvalidInput(he) => match he {
                    HammingError::InvalidDigit => !all_digit_chars(input@),
                    HammingError::InvalidLength(req, act) => all_digit_chars(input@) && req == 10
                        && act == input@.len() && input@.len() != 10,
                    HammingError::UnusableNumber => false,
                },
                BCHError::SingleError(w, pos, mag) => input@.len() == 10 && all_digit_chars(input@)
                    && spec_decode(chars_digits(input@)) == (SpecOutcome::Single {
                    word: w@,
                    pos: pos as int,
                    mag: mag as int,
                }),
                BCHError::DoubleError(w, pos, mag) => input@.len() == 10 && all_digit_chars(input@)
                    && spec_decode(chars_digits(input@)) == (SpecOutcome::Double {
                    word: w@,
                    pos1: pos.0 as int,
                    pos2: pos.1 as int,
                    mag1: mag.0 as int,
                    mag2: mag.1 as int,
                }),
                BCHError::TripleError(t) => input@.len() == 10 && all_digit_chars(input@)
                    && spec_decode(chars_digits(input@)) == (SpecOutcome::Reject { reason: t }),
            },
        },
{
    let ints = match parse_digits(input) {
        Some(d) => d,
        None => {
            return Err(BCHError::InvalidInput(HammingError::InvalidDigit));
        },
    };
    if ints.len() != 10 {
        return Err(BCHError::InvalidInput(HammingError::InvalidLength(10, ints.len())));
    }
    match decode_digits(&ints) {
        Decoded::Clean => Ok(()),
        Decoded::Single(w, pos, mag) => Err(BCHError::SingleError(w, pos, mag)),
        Decoded::Double(w, pos, mag) => Err(BCHError::DoubleError(w, pos, mag)),
        Decoded::Reject(t) => Err(BCHError::TripleError(t)),
    }
}

} // verus!
