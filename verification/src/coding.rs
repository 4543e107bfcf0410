//! The (10,6) code over decimal strings: encoding a six-digit payload
//! into a ten-digit codeword, and decoding a received ten-digit string,
//! with the corrections reported as corrected strings and reasons given
//! as text.

use vstd::prelude::*;

verus! {

use crate::decode::{decode_digits, spec_decode, Decoded, SpecOutcome, TripleErrorReason};
use crate::digits::{
    all_digit_chars, chars_digits, dec_str, digit_chars, digits_to_string, ints_of, nines,
    parse_digits,
};
use crate::hamming::{
    calculate_digits, check_chars4, check_digit, enc_row, enc_weight, encode_ok,
    lemma_enc_row_fits, rows_check_chars, rows_of, wsum,
};

/// What encoding or decoding reports: a rejected input, a repaired single
/// or double corruption, or corruption beyond repair, each with its text.
#[derive(Debug)]
pub enum CodingResult {
    EncodingError(String),
    InputError(String),
    SingleError(String, i32, i32),
    DoubleError(String, (i32, i32), (i32, i32)),
    TripleError(String),
}

/// The text that names a reason for giving a word up as uncorrectable.
pub open spec fn reason_text(t: TripleErrorReason) -> Seq<char> {
    match t {
        TripleErrorReason::DivisionError => "The RHS value did not satisfy the restraint of having a GCD of 1 with the LHS modulo."@,
        TripleErrorReason::ErrorAtPositionZero => "Error was detected at position zero!"@,
        TripleErrorReason::NoValidRoots => "Q^2 - 4PR did not have a valid root!"@,
        TripleErrorReason::ValueCorrectedToTen => "Corrected a digit into 10"@,
    }
}

/// Encodes a six-digit payload into the ten-digit codeword: the payload
/// followed by its four check digits.
pub fn encode_bch(string: &str) -> (r: Result<String, CodingResult>)
    ensures
        match r {
            Ok(s) => encode_ok(string@) && s@ == string@ + check_chars4(chars_digits(string@)),
            Err(e) => match e {
                CodingResult::EncodingError(msg) => {
                    if string@.len() != 6 {
                        msg@ == "Input length too small - should be "@ + dec_str(6)
                            + " not "@ + dec_str(string@.len() as nat) + "!"@
                    } else if !all_digit_chars(string@) {
                        msg@ == "Invalid Digit"@
                    } else {
                        (exists|k: int| 0 <= k < 4 && check_digit(chars_digits(string@), k) > 9)
                            && msg@ == "Inputted string cannot be encoded using BCH(10,6)"@
                    }
                },
                _ => false,
            },
        },
{
    let r0 = enc_row(0);
    let r1 = enc_row(1);
    let r2 = enc_row(2);
    let r3 = enc_row(3);
    let mut ws: Vec<&[u32]> = Vec::new();
    ws.push(r0.as_slice());
    ws.push(r1.as_slice());
    ws.push(r2.as_slice());
    ws.push(r3.as_slice());
    proof {
        lemma_enc_row_fits(0);
        lemma_enc_row_fits(1);
        lemma_enc_row_fits(2);
        lemma_enc_row_fits(3);
        assert(forall|k: int| 0 <= k < 4 ==> rows_of(ws@)[k] == ints_of(#[trigger] ws@[k]@));
        assert(rows_of(ws@)[0] == enc_weight(0));
        assert(rows_of(ws@)[1] == enc_weight(1));
        assert(rows_of(ws@)[2] == enc_weight(2));
        assert(rows_of(ws@)[3] == enc_weight(3));
    }
    let ghost dv = chars_digits(string@);
    let out = calculate_digits(ws.as_slice(), string, 6);
    proof {
        assert(rows_check_chars(rows_of(ws@), dv) =~= check_chars4(dv));
        assert(forall|k: int|
            0 <= k < 4 ==> #[trigger] wsum(rows_of(ws@)[k], ints_of(dv)) % 11 == check_digit(
                dv,
                k,
            ));
    }
    match out {
        Ok(digits) => Ok(digits),
        Err(error) => Err(CodingResult::EncodingError(error)),
    }
}

/// Decodes a received ten-digit string.  A clean codeword is returned
/// unchanged; a word with one or two repairable corruptions is reported
/// with the corrected string, the 1-indexed positions and the magnitudes;
/// anything further is reported uncorrectable with the reason's text.
pub fn decode_bch(string: &str) -> (r: Result<String, CodingResult>)
    ensures
        match r {
            Ok(s) => string@.len() == 10 && all_digit_chars(string@) && spec_decode(
                chars_digits(string@),
            ) == SpecOutcome::Clean && s@ == string@,
            Err(e) => match e {
                CodingResult::InputError(msg) => (string@.len() != 10 && msg@
                    == "Input is of wrong length"@) || (string@.len() == 10 && !all_digit_chars(
                    string@,
                ) && msg@ == "String contains a non numeric character"@),
                CodingResult::SingleError(out, pos, mag) => string@.len() == 10 && all_digit_chars(
                    string@,
                ) && match spec_decode(chars_digits(string@)) {
                    SpecOutcome::Single { word, pos: sp, mag: sm } => out@ == digit_chars(word)
                        && pos as int == sp && mag as int == sm,
                    _ => false,
                },
                CodingResult::DoubleError(out, pos, mag) => string@.len() == 10 && all_digit_chars(
                    string@,
                ) && match spec_decode(chars_digits(string@)) {
                    SpecOutcome::Double { word, pos1, pos2, mag1, mag2 } => out@ == digit_chars(
                        word,
                    ) && pos.0 as int == pos1 && pos.1 as int == pos2 && mag.0 as int == mag1
                        && mag.1 as int == mag2,
                    _ => false,
                },
                CodingResult::TripleError(msg) => string@.len() == 10 && all_digit_chars(string@)
                    && match spec_decode(chars_digits(string@)) {
                    SpecOutcome::Reject { reason } => msg@ == reason_text(reason),
                    _ => false,
                },
                CodingResult::EncodingError(_) => false,
            },
        },
{
    let n = string.unicode_len();
    if n != 10 {
        return Err(CodingResult::InputError(String::from_str("Input is of wrong length")));
    }
    let ints = match parse_digits(string) {
        Some(d) => d,
        None => {
            return Err(
                CodingResult::InputError(
                    String::from_str("String contains a non numeric character"),
                ),
            );
        },
    };
    match decode_digits(&ints) {
        Decoded::Clean => Ok(string.to_owned()),
        Decoded::Single(w, pos, mag) => Err(
            CodingResult::SingleError(digits_to_string(&w), pos as i32, mag as i32),
        ),
        Decoded::Double(w, pos, mag) => Err(
            CodingResult::DoubleError(
                digits_to_string(&w),
                (pos.0 as i32, pos.1 as i32),
                (mag.0 as i32, mag.1 as i32),
            ),
        ),
        Decoded::Reject(t) => {
            let msg = match t {
                TripleErrorReason::DivisionError => String::from_str(
                    "The RHS value did not satisfy the restraint of having a GCD of 1 with the LHS modulo.",
                ),
                TripleErrorReason::ErrorAtPositionZero => String::from_str(
                    "Error was detected at position zero!",
                ),
                TripleErrorReason::NoValidRoots => String::from_str(
                    "Q^2 - 4PR did not have a valid root!",
                ),
                TripleErrorReason::ValueCorrectedToTen => String::from_str(
                    "Corrected a digit into 10",
                ),
            };
            Err(CodingResult::TripleError(msg))
        },
    }
}

} // verus!
